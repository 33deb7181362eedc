//! The sparse table: construction from keys and values, and lookup.

use vstd::prelude::*;
use crate::field::{FieldElement, modulus};
use crate::sort::{sort_advanced, is_sorted, is_placement, taken};
use crate::text::{table_text, push_hex_list, push_decimal};

verus! {

/// A lookup table over the indices `[0, maximum]` that stores a few entries
/// and answers a shared default everywhere else.
///
/// `keys` holds `0`, the entry keys in ascending order, then `maximum`;
/// `values[p + 1]` belongs to `keys[p]`, and `values[0]` is the default.
pub struct SparseArray<T> {
    keys: Vec<FieldElement>,
    values: Vec<T>,
    maximum: FieldElement,
}

/// `d` is a value that `T::default()` returns.
pub open spec fn is_default<T: Default>(d: T) -> bool {
    call_ensures(T::default, (), d)
}

/// The last position at or below `p` whose key is `index`, or -1.
pub open spec fn last_match(keys: Seq<FieldElement>, index: FieldElement, p: int) -> int
    decreases p + 1,
{
    if p < 0 {
        -1
    } else if keys[p] == index {
        p
    } else {
        last_match(keys, index, p - 1)
    }
}

/// What construction asks of its inputs: the declared size is positive, the
/// largest index `size - 1` is a field element, and so is every key, none
/// above that largest index.
pub open spec fn bounds_ok(keys: Seq<FieldElement>, size: FieldElement) -> bool {
    &&& size.value() >= 1
    &&& size.value() - 1 < modulus()
    &&& forall|i: int| 0 <= i < keys.len() ==> (#[trigger] keys[i]).value() < modulus()
    &&& forall|i: int| 0 <= i < keys.len() ==> (#[trigger] keys[i]).value() <= size.value() - 1
}

/// Why a table could not be built.
#[derive(Clone, Copy, Debug, PartialEq, Eq, Structural)]
pub enum BuildError {
    /// There are not as many values as keys.
    LengthMismatch,
    /// The declared size is zero, so there is no largest index.
    EmptyDomain,
    /// A key is not below the field modulus.
    KeyOutOfField,
    /// The largest index `size - 1` is not below the field modulus.
    MaximumOutOfField,
    /// A key lies above the largest index `size - 1`.
    KeyAboveMaximum,
}

/// The first check that construction from these inputs fails, if any.
pub open spec fn build_error(keys: Seq<FieldElement>, n_values: int, size: FieldElement) -> Option<BuildError> {
    if keys.len() != n_values {
        Some(BuildError::LengthMismatch)
    } else if size.value() == 0 {
        Some(BuildError::EmptyDomain)
    } else if size.value() - 1 >= modulus() {
        Some(BuildError::MaximumOutOfField)
    } else if exists|i: int| 0 <= i < keys.len() && (#[trigger] keys[i]).value() >= modulus() {
        Some(BuildError::KeyOutOfField)
    } else if exists|i: int| 0 <= i < keys.len() && (#[trigger] keys[i]).value() > size.value() - 1 {
        Some(BuildError::KeyAboveMaximum)
    } else {
        None
    }
}

impl<T> SparseArray<T> {
    /// The stored keys, boundary keys included.
    pub closed spec fn key_seq(&self) -> Seq<FieldElement> {
        self.keys@
    }

    /// The stored values; the first one is the default.
    pub closed spec fn value_seq(&self) -> Seq<T> {
        self.values@
    }

    /// The largest index of the table's domain.
    pub closed spec fn maximum_spec(&self) -> FieldElement {
        self.maximum
    }

    /// Number of entries, not counting the two boundary keys.
    pub open spec fn entry_count(&self) -> int {
        self.key_seq().len() - 2
    }

    /// The value answered for every index without an entry.
    pub open spec fn default_value(&self) -> T {
        self.value_seq()[0]
    }

    /// The shape every table keeps.
    pub open spec fn wf(&self) -> bool {
        let k = self.key_seq();
        &&& k.len() >= 2
        &&& self.value_seq().len() == k.len() + 1
        &&& k[0].value() == 0
        &&& k[k.len() - 1] == self.maximum_spec()
        &&& is_sorted(k)
        &&& self.maximum_spec().value() < modulus()
    }

    /// What `get` answers for `index`: the default above `maximum`; else the
    /// value of the last key among the first `entry_count() + 1` equal to
    /// `index`, or the default where there is none.
    pub open spec fn lookup(&self, index: FieldElement) -> T {
        let q = last_match(self.key_seq(), index, self.entry_count());
        if index.value() > self.maximum_spec().value() || q < 0 {
            self.value_seq()[0]
        } else {
            self.value_seq()[q + 1]
        }
    }

    /// The table is laid out from `keys` and `values` as construction lays it
    /// out, with `idx` placing each input position among the sorted keys.
    pub open spec fn laid_out(
        &self,
        keys: Seq<FieldElement>,
        values: Seq<T>,
        size: FieldElement,
        idx: Seq<usize>,
    ) -> bool {
        let n = keys.len() as int;
        let k = self.key_seq();
        let v = self.value_seq();
        &&& self.maximum_spec().value() == size.value() - 1
        &&& k.len() == n + 2
        &&& v.len() == n + 3
        &&& is_placement(keys, k.subrange(1, n + 1), idx)
        &&& forall|i: int| 0 <= i < n ==> v[#[trigger] idx[i] + 2] == values[i]
        &&& v[1] == if n > 0 && k[1].value() == 0 {
            v[2]
        } else {
            v[0]
        }
        &&& v[n + 2] == if n > 0 && k[n] == self.maximum_spec() {
            v[n + 1]
        } else {
            v[0]
        }
    }

    /// The table is what construction from `keys`, `values` and `size` gives.
    pub open spec fn built_from(&self, keys: Seq<FieldElement>, values: Seq<T>, size: FieldElement) -> bool {
        &&& self.wf()
        &&& exists|idx: Seq<usize>| self.laid_out(keys, values, size, idx)
    }

    /// Looks up `index`; see `lookup`.
    pub fn get(&self, index: &FieldElement) -> (r: &T)
        requires
            self.wf(),
        ensures
            *r == self.lookup(*index),
    {
        if self.maximum.lt(index) {
            return &self.values[0];
        }
        let mut left: usize = 0;
        let mut right: usize = self.keys.len() - 1;
        while left + 1 < right
            invariant
                self.wf(),
                left < right <= self.keys@.len() - 1,
                self.keys@[left as int].value() <= index.value(),
                right == self.keys@.len() - 1 || index.value() < self.keys@[right as int].value(),
            decreases right - left,
        {
            let mid = left + (right - left) / 2;
            if self.keys[mid].le(index) {
                left = mid;
            } else {
                right = mid;
            }
        }
        proof {
            lemma_floor_match(self.keys@, *index, left as int, self.entry_count());
        }
        if self.keys[left] == *index {
            &self.values[left + 1]
        } else {
            &self.values[0]
        }
    }

    /// The largest index of the table's domain, `size - 1`.
    pub fn get_maximum(&self) -> (r: &FieldElement)
        ensures
            *r == self.maximum_spec(),
    {
        &self.maximum
    }
}

impl<T: Copy + Default> SparseArray<T> {
    /// Builds the table over `[0, size - 1]` that pairs `keys[i]` with
    /// `values[i]`; every other index answers `T::default()`.
    pub fn create(keys: &[FieldElement], values: &[T], size: FieldElement) -> (r: Self)
        requires
            keys@.len() == values@.len(),
            keys@.len() + 3 <= usize::MAX,
            bounds_ok(keys@, size),
        ensures
            r.built_from(keys@, values@, size),
            is_default(r.default_value()),
    {
        let n = keys.len();
        let maximum = size.minus_one();
        let sorted = sort_advanced(keys);
        let ghost idx = sorted.sort_indices@;
        let d = T::default();

        let mut out_keys: Vec<FieldElement> = Vec::with_capacity(n + 2);
        out_keys.push(FieldElement::zero());
        let mut p: usize = 0;
        while p < n
            invariant
                n == keys@.len(),
                sorted.sorted@.len() == n,
                p <= n,
                out_keys@.len() == p + 1,
                out_keys@[0].value() == 0,
                forall|q: int| 0 <= q < p ==> #[trigger] out_keys@[q + 1] == sorted.sorted@[q],
            decreases n - p,
        {
            out_keys.push(sorted.sorted[p]);
            p = p + 1;
        }
        out_keys.push(maximum);

        let mut out_values: Vec<T> = Vec::with_capacity(n + 3);
        let mut p: usize = 0;
        while p < n + 3
            invariant
                p <= n + 3,
                n + 3 <= usize::MAX,
                out_values@.len() == p,
                forall|q: int| 0 <= q < p ==> #[trigger] out_values@[q] == d,
            decreases n + 3 - p,
        {
            out_values.push(d);
            p = p + 1;
        }

        let mut i: usize = 0;
        while i < n
            invariant
                n == keys@.len(),
                n == values@.len(),
                n + 3 <= usize::MAX,
                i <= n,
                idx == sorted.sort_indices@,
                is_placement(keys@, sorted.sorted@, idx),
                out_values@.len() == n + 3,
                out_values@[0] == d,
                forall|i1: int| 0 <= i1 < i ==> out_values@[#[trigger] idx[i1] + 2] == values@[i1],
            decreases n - i,
        {
            let slot = sorted.sort_indices[i] + 2;
            out_values.set(slot, values[i]);
            i = i + 1;
        }

        let initial_value = if n > 0 && sorted.sorted[0] == FieldElement::zero() {
            out_values[2]
        } else {
            d
        };
        out_values.set(1, initial_value);
        let final_value = if n > 0 && sorted.sorted[n - 1] == maximum {
            out_values[n + 1]
        } else {
            d
        };
        out_values.set(n + 2, final_value);

        let result = SparseArray { keys: out_keys, values: out_values, maximum };
        proof {
            let k = result.keys@;
            assert(k.subrange(1, n + 1) =~= sorted.sorted@);
            assert forall|a: int, b: int| 0 <= a < b < k.len() implies #[trigger] k[a].value() <= #[trigger] k[b].value() by {
                if a > 0 && b <= n {
                    assert(k[a] == sorted.sorted@[a - 1]);
                    assert(k[b] == sorted.sorted@[b - 1]);
                }
                if 0 < a <= n {
                    assert(k[a] == sorted.sorted@[a - 1]);
                    assert(taken(idx, a - 1));
                    let j = choose|j: int| 0 <= j < idx.len() && idx[j] == a - 1;
                    assert(sorted.sorted@[a - 1] == keys@[j]);
                    assert(keys@[j].value() <= size.value() - 1);
                }
                if 0 < b <= n {
                    assert(k[b] == sorted.sorted@[b - 1]);
                }
            }
            assert(result.laid_out(keys@, values@, size, idx));
        }
        result
    }
}

impl<T: Copy + Default> SparseArray<T> {
    /// Builds the table as `create` does, or tells which check the inputs fail.
    pub fn try_create(keys: &[FieldElement], values: &[T], size: FieldElement) -> (r: Result<Self, BuildError>)
        requires
            keys@.len() + 3 <= usize::MAX,
        ensures
            match r {
                Ok(t) => build_error(keys@, values@.len() as int, size) is None
                    && t.built_from(keys@, values@, size) && is_default(t.default_value()),
                Err(e) => build_error(keys@, values@.len() as int, size) == Some(e),
            },
    {
        if keys.len() != values.len() {
            return Err(BuildError::LengthMismatch);
        }
        let zero = FieldElement::zero();
        proof {
            crate::field::lemma_order(size, zero);
        }
        if size == zero {
            return Err(BuildError::EmptyDomain);
        }
        let maximum = size.minus_one();
        if !maximum.in_field() {
            return Err(BuildError::MaximumOutOfField);
        }
        let mut i: usize = 0;
        while i < keys.len()
            invariant
                i <= keys@.len(),
                keys@.len() == values@.len(),
                size.value() != 0,
                size.value() - 1 < modulus(),
                forall|j: int| 0 <= j < i ==> (#[trigger] keys@[j]).value() < modulus(),
            decreases keys@.len() - i,
        {
            if !keys[i].in_field() {
                assert(keys@[i as int].value() >= modulus());
                return Err(BuildError::KeyOutOfField);
            }
            i = i + 1;
        }
        let mut i: usize = 0;
        while i < keys.len()
            invariant
                i <= keys@.len(),
                keys@.len() == values@.len(),
                size.value() != 0,
                maximum.value() == size.value() - 1,
                size.value() - 1 < modulus(),
                forall|j: int| 0 <= j < keys@.len() ==> (#[trigger] keys@[j]).value() < modulus(),
                forall|j: int| 0 <= j < i ==> (#[trigger] keys@[j]).value() <= size.value() - 1,
            decreases keys@.len() - i,
        {
            if maximum.lt(&keys[i]) {
                assert(keys@[i as int].value() > size.value() - 1);
                return Err(BuildError::KeyAboveMaximum);
            }
            i = i + 1;
        }
        Ok(Self::create(keys, values, size))
    }
}

/// The declared name of the text form, if one is given.
pub open spec fn name_view(table_name: Option<&str>) -> Option<Seq<char>> {
    match table_name {
        Some(name) => Some(name@),
        None => None,
    }
}

/// The element type named in the text form: the given one, else `Field`.
pub open spec fn generic_view(generic_name: Option<&str>) -> Seq<char> {
    match generic_name {
        Some(name) => name@,
        None => "Field"@,
    }
}

impl SparseArray<FieldElement> {
    /// The table as a constant declaration: every stored key and value as a
    /// `0x`-prefixed literal of at least eight lower-case hexadecimal digits.
    /// The values must fit in 32 bits.
    pub fn to_noir_string(&self, table_name: Option<&str>, generic_name: Option<&str>) -> (r: String)
        requires
            self.wf(),
            forall|i: int| 0 <= i < self.value_seq().len() ==> (#[trigger] self.value_seq()[i]).value() <= u32::MAX,
        ensures
            r@ == table_text(
                self.key_seq(),
                self.value_seq(),
                self.maximum_spec(),
                name_view(table_name),
                generic_view(generic_name),
            ),
    {
        let mut out = String::new();
        match table_name {
            Some(name) => {
                out.append(name);
                out.append(": ");
            },
            None => {},
        }
        out.append("SparseArray<");
        push_decimal(&mut out, self.keys.len() - 2);
        out.append(", ");
        match generic_name {
            Some(name) => out.append(name),
            None => out.append("Field"),
        }
        out.append("> = SparseArray {\n    keys: [");
        push_hex_list(&mut out, &self.keys);
        out.append("],\n    values: [");
        push_hex_list(&mut out, &self.values);
        out.append("],\n    maximum: ");
        out.append("0x");
        let top = crate::field::hex_padded(&self.maximum);
        out.append(top.as_str());
        out.append("\n};");
        proof {
            assert(out@ =~= table_text(
                self.key_seq(),
                self.value_seq(),
                self.maximum_spec(),
                name_view(table_name),
                generic_view(generic_name),
            ));
        }
        out
    }
}

/// No key at or below `p` is `index`.
proof fn lemma_no_match(keys: Seq<FieldElement>, index: FieldElement, p: int)
    requires
        p < keys.len(),
        forall|q: int| 0 <= q <= p ==> #[trigger] keys[q] != index,
    ensures
        last_match(keys, index, p) == -1,
    decreases p + 1,
{
    if p >= 0 {
        lemma_no_match(keys, index, p - 1);
    }
}

/// In sorted keys, the last position at or below `n` that does not exceed
/// `index` decides whether and where `index` last occurs.
proof fn lemma_floor_match(keys: Seq<FieldElement>, index: FieldElement, left: int, n: int)
    requires
        is_sorted(keys),
        0 <= left <= n < keys.len(),
        keys[left].value() <= index.value(),
        left == n || index.value() < keys[left + 1].value(),
    ensures
        last_match(keys, index, n) == if keys[left] == index {
            left
        } else {
            -1
        },
    decreases n - left,
{
    if n > left {
        assert(keys[left + 1].value() <= keys[n].value());
        assert(keys[n] != index);
        lemma_floor_match(keys, index, left, n - 1);
    } else if keys[left] != index {
        assert forall|q: int| 0 <= q <= left implies #[trigger] keys[q] != index by {
            if q < left {
                assert(keys[q].value() <= keys[left].value());
            }
            crate::field::lemma_order(keys[q], index);
            crate::field::lemma_order(keys[left], index);
        }
        lemma_no_match(keys, index, left);
    }
}

/// `p` is the last position at or below `n` holding `index`.
proof fn lemma_last_match_at(keys: Seq<FieldElement>, index: FieldElement, p: int, n: int)
    requires
        0 <= p <= n < keys.len(),
        keys[p] == index,
        forall|q: int| p < q <= n ==> #[trigger] keys[q] != index,
    ensures
        last_match(keys, index, n) == p,
    decreases n - p,
{
    if n > p {
        lemma_last_match_at(keys, index, p, n - 1);
    }
}

/// Every entry key is some input key, and lies in `[0, maximum]`.
proof fn lemma_entry_key<T>(
    t: SparseArray<T>,
    keys: Seq<FieldElement>,
    values: Seq<T>,
    size: FieldElement,
    idx: Seq<usize>,
    q: int,
) -> (i: int)
    requires
        t.wf(),
        t.laid_out(keys, values, size, idx),
        1 <= q <= keys.len(),
    ensures
        0 <= i < keys.len(),
        idx[i] == q - 1,
        t.key_seq()[q] == keys[i],
{
    let n = keys.len() as int;
    assert(taken(idx, q - 1));
    let i = choose|i: int| 0 <= i < idx.len() && idx[i] == q - 1;
    assert(t.key_seq().subrange(1, n + 1)[q - 1] == t.key_seq()[q]);
    i
}

/// Lookup of an input key gives the value paired with its last occurrence.
pub proof fn lemma_lookup_entry<T>(
    t: SparseArray<T>,
    keys: Seq<FieldElement>,
    values: Seq<T>,
    size: FieldElement,
    i: int,
)
    requires
        t.built_from(keys, values, size),
        keys.len() == values.len(),
        0 <= i < keys.len(),
        forall|j: int| i < j < keys.len() ==> #[trigger] keys[j] != keys[i],
    ensures
        t.lookup(keys[i]) == values[i],
{
    let n = keys.len() as int;
    let idx = choose|idx: Seq<usize>| t.laid_out(keys, values, size, idx);
    let k = t.key_seq();
    let pos = idx[i] as int;
    assert(k.subrange(1, n + 1)[pos] == k[pos + 1]);
    assert forall|q: int| pos + 1 < q <= n implies #[trigger] k[q] != keys[i] by {
        let j = lemma_entry_key(t, keys, values, size, idx, q);
        if k[q] == keys[i] {
            assert(j != i);
            if j < i {
                assert(idx[j] < idx[i]);
            }
        }
    }
    lemma_last_match_at(k, keys[i], pos + 1, n);
    assert(k[pos + 1].value() <= k[n + 1].value());
}

/// Lookup of an index in `[0, size - 1]` that is no input key gives the default.
pub proof fn lemma_lookup_hole<T>(
    t: SparseArray<T>,
    keys: Seq<FieldElement>,
    values: Seq<T>,
    size: FieldElement,
    index: FieldElement,
)
    requires
        t.built_from(keys, values, size),
        index.value() < size.value(),
        forall|j: int| 0 <= j < keys.len() ==> #[trigger] keys[j] != index,
    ensures
        t.lookup(index) == t.default_value(),
{
    let n = keys.len() as int;
    let idx = choose|idx: Seq<usize>| t.laid_out(keys, values, size, idx);
    let k = t.key_seq();
    assert forall|q: int| 1 <= q <= n implies #[trigger] k[q] != index by {
        let j = lemma_entry_key(t, keys, values, size, idx, q);
    }
    if k[0] == index {
        lemma_last_match_at(k, index, 0, n);
        if n > 0 {
            crate::field::lemma_order(k[1], index);
        }
    } else {
        lemma_no_match(k, index, n);
    }
}

/// Lookup of an index at or above `size` gives the default.
pub proof fn lemma_lookup_out_of_range<T>(
    t: SparseArray<T>,
    keys: Seq<FieldElement>,
    values: Seq<T>,
    size: FieldElement,
    index: FieldElement,
)
    requires
        t.built_from(keys, values, size),
        index.value() >= size.value(),
    ensures
        t.lookup(index) == t.default_value(),
{
    let idx = choose|idx: Seq<usize>| t.laid_out(keys, values, size, idx);
}

/// Where `0` is an input key, the slot of the boundary key `0` holds the value
/// paired with its first occurrence.
pub proof fn lemma_zero_slot<T>(
    t: SparseArray<T>,
    keys: Seq<FieldElement>,
    values: Seq<T>,
    size: FieldElement,
    i: int,
)
    requires
        t.built_from(keys, values, size),
        keys.len() == values.len(),
        0 <= i < keys.len(),
        keys[i].value() == 0,
        forall|j: int| 0 <= j < i ==> (#[trigger] keys[j]).value() != 0,
    ensures
        t.value_seq()[1] == values[i],
{
    let n = keys.len() as int;
    let idx = choose|idx: Seq<usize>| t.laid_out(keys, values, size, idx);
    let k = t.key_seq();
    let pos = idx[i] as int;
    assert(k.subrange(1, n + 1)[pos] == k[pos + 1]);
    if pos > 0 {
        let j = lemma_entry_key(t, keys, values, size, idx, 1);
        assert(k[1].value() <= k[pos + 1].value());
        crate::field::lemma_order(keys[j], keys[i]);
        assert(j != i);
        if j > i {
            assert(idx[i] < idx[j]);
        }
    }
    assert(k[1] == keys[i]);
}

/// Where `size - 1` is an input key, the slot of the boundary key `size - 1`
/// holds the value paired with its last occurrence.
pub proof fn lemma_maximum_slot<T>(
    t: SparseArray<T>,
    keys: Seq<FieldElement>,
    values: Seq<T>,
    size: FieldElement,
    i: int,
)
    requires
        t.built_from(keys, values, size),
        keys.len() == values.len(),
        0 <= i < keys.len(),
        keys[i].value() == size.value() - 1,
        forall|j: int| i < j < keys.len() ==> (#[trigger] keys[j]).value() != size.value() - 1,
    ensures
        t.value_seq()[keys.len() + 2int] == values[i],
{
    let n = keys.len() as int;
    let idx = choose|idx: Seq<usize>| t.laid_out(keys, values, size, idx);
    let k = t.key_seq();
    let pos = idx[i] as int;
    assert(k.subrange(1, n + 1)[pos] == k[pos + 1]);
    if pos < n - 1 {
        let j = lemma_entry_key(t, keys, values, size, idx, n);
        assert(k[pos + 1].value() <= k[n].value());
        assert(k[n].value() <= k[n + 1].value());
        crate::field::lemma_order(keys[j], keys[i]);
        assert(j != i);
        if j < i {
            assert(idx[j] < idx[i]);
        }
    }
    crate::field::lemma_order(k[n], t.maximum_spec());
}

/// Construction is refused exactly when a bound fails: `build_error` finds
/// nothing for precisely the inputs that `create` accepts.
pub proof fn lemma_bounds_decide(keys: Seq<FieldElement>, n_values: int, size: FieldElement)
    ensures
        (build_error(keys, n_values, size) is None) == (keys.len() == n_values && bounds_ok(keys, size)),
{
}

} // verus!
