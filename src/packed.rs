//! Packing a dense, index-addressed table into sparse entries.
//!
//! Every non-zero entry `table[i]` becomes the entry `i`. Each non-zero entry
//! at a byte index `i < 256` also adds `256 * table[i]` to the entries
//! `j * 256 + i` for every `j` below the repeat count, creating those that do
//! not exist yet.

use vstd::prelude::*;
use crate::field::{FieldElement, capacity, half_base};
use crate::sparse::SparseArray;

verus! {

/// The largest value in `table`, or 0 for an empty table.
pub open spec fn max_entry(table: Seq<FieldElement>) -> nat
    decreases table.len(),
{
    if table.len() == 0 {
        0
    } else {
        let m = max_entry(table.drop_last());
        if table.last().value() > m {
            table.last().value()
        } else {
            m
        }
    }
}

/// How many times each byte index repeats: the largest value in the table.
pub open spec fn repeat_count(table: Seq<FieldElement>) -> nat {
    max_entry(table)
}

/// No value exceeds the largest one.
proof fn lemma_max_entry_ge(table: Seq<FieldElement>, i: int)
    requires
        0 <= i < table.len(),
    ensures
        table[i].value() <= max_entry(table),
    decreases table.len(),
{
    if i < table.len() - 1 {
        assert(table.drop_last()[i] == table[i]);
        lemma_max_entry_ge(table.drop_last(), i);
    }
}

/// `k` indexes a non-zero entry of `table`.
pub open spec fn direct_entry(table: Seq<FieldElement>, k: nat) -> bool {
    k < table.len() && table[k as int].value() != 0
}

/// `k` is `j * 256 + i` for a non-zero `table[i]` and a `j` below the repeat count.
pub open spec fn repeated_entry(table: Seq<FieldElement>, k: nat) -> bool {
    &&& k % 256 < table.len()
    &&& table[(k % 256) as int].value() != 0
    &&& k / 256 < repeat_count(table)
}

/// `k` is a key of the packed entries.
pub open spec fn packed_has(table: Seq<FieldElement>, k: nat) -> bool {
    direct_entry(table, k) || repeated_entry(table, k)
}

/// The packed value of `k`: its own entry plus the scaled entry it repeats,
/// summed where both apply.
pub open spec fn packed_value(table: Seq<FieldElement>, k: nat) -> nat {
    (if direct_entry(table, k) {
        table[k as int].value()
    } else {
        0
    }) + (if repeated_entry(table, k) {
        table[(k % 256) as int].value() * 256
    } else {
        0
    })
}

/// Some key in `keys` has the value `k`.
pub open spec fn has_key(keys: Seq<FieldElement>, k: nat) -> bool {
    exists|p: int| 0 <= p < keys.len() && (#[trigger] keys[p]).value() == k
}

/// The sum of the values paired with key `k`.
pub open spec fn entry_sum(keys: Seq<FieldElement>, values: Seq<FieldElement>, k: nat) -> nat
    decreases keys.len(),
{
    if keys.len() == 0 {
        0
    } else {
        entry_sum(keys.drop_last(), values.drop_last(), k) + if keys.last().value() == k {
            values[keys.len() - 1].value()
        } else {
            0
        }
    }
}

/// No key occurs twice.
pub open spec fn distinct_keys(keys: Seq<FieldElement>) -> bool {
    forall|p: int, q: int| 0 <= p < q < keys.len() ==> keys[p] != keys[q]
}

/// `keys` and `values` are the packed entries of `table`, each key once.
pub open spec fn packed_entries(table: Seq<FieldElement>, keys: Seq<FieldElement>, values: Seq<FieldElement>) -> bool {
    &&& keys.len() == values.len()
    &&& distinct_keys(keys)
    &&& forall|k: nat| #[trigger] has_key(keys, k) == packed_has(table, k)
    &&& forall|k: nat| #[trigger] entry_sum(keys, values, k) == packed_value(table, k)
}

proof fn lemma_entry_push(keys: Seq<FieldElement>, values: Seq<FieldElement>, a: FieldElement, b: FieldElement, k: nat)
    requires
        keys.len() == values.len(),
    ensures
        entry_sum(keys.push(a), values.push(b), k) == entry_sum(keys, values, k) + if a.value() == k {
            b.value()
        } else {
            0
        },
        has_key(keys.push(a), k) == (has_key(keys, k) || a.value() == k),
{
    assert(keys.push(a).drop_last() =~= keys);
    assert(values.push(b).drop_last() =~= values);
    if has_key(keys, k) {
        let p = choose|p: int| 0 <= p < keys.len() && (#[trigger] keys[p]).value() == k;
        assert(keys.push(a)[p] == keys[p]);
    }
    if has_key(keys.push(a), k) {
        let p = choose|p: int| 0 <= p < keys.len() + 1 && (#[trigger] keys.push(a)[p]).value() == k;
        if p < keys.len() {
            assert(keys[p] == keys.push(a)[p]);
        }
    }
    if a.value() == k {
        assert(keys.push(a)[keys.len() as int] == a);
    }
}

proof fn lemma_entry_update(keys: Seq<FieldElement>, values: Seq<FieldElement>, p: int, v: FieldElement, k: nat)
    requires
        keys.len() == values.len(),
        0 <= p < keys.len(),
    ensures
        entry_sum(keys, values.update(p, v), k) + (if keys[p].value() == k {
            values[p].value()
        } else {
            0
        }) == entry_sum(keys, values, k) + if keys[p].value() == k {
            v.value()
        } else {
            0
        },
    decreases keys.len(),
{
    let n = keys.len() as int;
    if p == n - 1 {
        assert(values.update(p, v).drop_last() =~= values.drop_last());
    } else {
        assert(values.update(p, v).drop_last() =~= values.drop_last().update(p, v));
        lemma_entry_update(keys.drop_last(), values.drop_last(), p, v, k);
    }
}

proof fn lemma_entry_absent(keys: Seq<FieldElement>, values: Seq<FieldElement>, k: nat)
    requires
        forall|p: int| 0 <= p < keys.len() ==> (#[trigger] keys[p]).value() != k,
    ensures
        entry_sum(keys, values, k) == 0,
    decreases keys.len(),
{
    if keys.len() > 0 {
        let d = keys.drop_last();
        assert forall|p: int| 0 <= p < d.len() implies (#[trigger] d[p]).value() != k by {
            assert(d[p] == keys[p]);
        }
        lemma_entry_absent(d, values.drop_last(), k);
    }
}

proof fn lemma_entry_single(keys: Seq<FieldElement>, values: Seq<FieldElement>, p: int)
    requires
        keys.len() == values.len(),
        distinct_keys(keys),
        0 <= p < keys.len(),
    ensures
        entry_sum(keys, values, keys[p].value()) == values[p].value(),
    decreases keys.len(),
{
    let n = keys.len() as int;
    let d = keys.drop_last();
    let k = keys[p].value();
    if p == n - 1 {
        assert forall|q: int| 0 <= q < d.len() implies (#[trigger] d[q]).value() != k by {
            assert(d[q] == keys[q]);
            crate::field::lemma_order(keys[q], keys[p]);
        }
        lemma_entry_absent(d, values.drop_last(), k);
    } else {
        assert(d[p] == keys[p]);
        lemma_entry_single(d, values.drop_last(), p);
        crate::field::lemma_order(keys[p], keys[n - 1]);
    }
}

/// Adds `add` to the value of `key`, or appends the entry `(key, add)`.
fn accumulate(keys: &mut Vec<FieldElement>, values: &mut Vec<FieldElement>, key: FieldElement, add: FieldElement)
    requires
        old(keys)@.len() == old(values)@.len(),
        distinct_keys(old(keys)@),
        entry_sum(old(keys)@, old(values)@, key.value()) + add.value() < capacity(),
    ensures
        final(keys)@.len() == final(values)@.len(),
        final(keys)@.len() <= old(keys)@.len() + 1,
        distinct_keys(final(keys)@),
        forall|k: nat| #[trigger] has_key(final(keys)@, k) == (has_key(old(keys)@, k) || k == key.value()),
        forall|k: nat| #[trigger] entry_sum(final(keys)@, final(values)@, k) == entry_sum(old(keys)@, old(values)@, k) + if k == key.value() {
            add.value()
        } else {
            0
        },
{
    let mut p: usize = 0;
    while p < keys.len()
        invariant
            keys@ == old(keys)@,
            values@ == old(values)@,
            keys@.len() == values@.len(),
            distinct_keys(keys@),
            entry_sum(keys@, values@, key.value()) + add.value() < capacity(),
            p <= keys@.len(),
            forall|q: int| 0 <= q < p ==> keys@[q] != key,
        decreases keys@.len() - p,
    {
        if keys[p] == key {
            proof {
                lemma_entry_single(keys@, values@, p as int);
            }
            let v = values[p].plus(&add);
            let ghost before = values@;
            values.set(p, v);
            proof {
                assert forall|k: nat| #[trigger] has_key(keys@, k) == (has_key(old(keys)@, k) || k == key.value()) by {
                    if k == key.value() {
                        assert(keys@[p as int].value() == k);
                    }
                }
                assert forall|k: nat| #[trigger] entry_sum(keys@, values@, k) == entry_sum(old(keys)@, old(values)@, k) + if k == key.value() {
                    add.value()
                } else {
                    0
                } by {
                    lemma_entry_update(keys@, before, p as int, v, k);
                }
            }
            return;
        }
        p = p + 1;
    }
    proof {
        assert forall|q: int| 0 <= q < keys@.len() implies (#[trigger] keys@[q]).value() != key.value() by {
            crate::field::lemma_order(keys@[q], key);
        }
        assert forall|k: nat| #[trigger] has_key(keys@.push(key), k) == (has_key(keys@, k) || k == key.value()) by {
            lemma_entry_push(keys@, values@, key, add, k);
        }
        assert forall|k: nat| #[trigger] entry_sum(keys@.push(key), values@.push(add), k) == entry_sum(keys@, values@, k) + if k == key.value() {
            add.value()
        } else {
            0
        } by {
            lemma_entry_push(keys@, values@, key, add, k);
        }
    }
    keys.push(key);
    values.push(add);
}

/// `x * 256`, by doubling eight times.
fn times_256(x: FieldElement) -> (r: FieldElement)
    requires
        x.value() * 256 < capacity(),
    ensures
        r.value() == x.value() * 256,
{
    let x2 = x.plus(&x);
    let x4 = x2.plus(&x2);
    let x8 = x4.plus(&x4);
    let x16 = x8.plus(&x8);
    let x32 = x16.plus(&x16);
    let x64 = x32.plus(&x32);
    let x128 = x64.plus(&x64);
    x128.plus(&x128)
}

/// Entry `k` counts its repeated part once its byte index is below `s`, or
/// equals `s` with a repetition below `j`.
pub open spec fn repeat_done(k: nat, s: nat, j: nat) -> bool {
    k % 256 < s || (k % 256 == s && k / 256 < j)
}

/// The packed entries so far: every direct entry, and the repeated ones done.
pub open spec fn partly_packed(
    table: Seq<FieldElement>,
    keys: Seq<FieldElement>,
    values: Seq<FieldElement>,
    s: nat,
    j: nat,
) -> bool {
    &&& keys.len() == values.len()
    &&& distinct_keys(keys)
    &&& forall|k: nat| #[trigger] has_key(keys, k) == (direct_entry(table, k) || (repeated_entry(table, k) && repeat_done(k, s, j)))
    &&& forall|k: nat| #[trigger] entry_sum(keys, values, k) == (if direct_entry(table, k) {
        table[k as int].value()
    } else {
        0
    }) + (if repeated_entry(table, k) && repeat_done(k, s, j) {
        table[(k % 256) as int].value() * 256
    } else {
        0
    })
}

/// Once every repetition of byte index `s` is done (or it has none), the
/// packing has moved on to `s + 1`.
proof fn lemma_byte_done(table: Seq<FieldElement>, keys: Seq<FieldElement>, values: Seq<FieldElement>, s: nat, j: nat)
    requires
        partly_packed(table, keys, values, s, j),
        j >= repeat_count(table) || (s < table.len() && table[s as int].value() == 0),
    ensures
        partly_packed(table, keys, values, s + 1, 0),
{
    assert forall|k: nat| #[trigger] repeat_done(k, s + 1, 0) == repeat_done(k, s, j) || (k % 256 == s && !repeated_entry(table, k)) by {}
    assert forall|k: nat| #[trigger] has_key(keys, k) == (direct_entry(table, k) || (repeated_entry(table, k) && repeat_done(k, s + 1, 0))) by {
        assert(repeat_done(k, s + 1, 0) == repeat_done(k, s, j) || (k % 256 == s && !repeated_entry(table, k)));
    }
    assert forall|k: nat| #[trigger] entry_sum(keys, values, k) == (if direct_entry(table, k) {
        table[k as int].value()
    } else {
        0
    }) + (if repeated_entry(table, k) && repeat_done(k, s + 1, 0) {
        table[(k % 256) as int].value() * 256
    } else {
        0
    }) by {
        assert(repeat_done(k, s + 1, 0) == repeat_done(k, s, j) || (k % 256 == s && !repeated_entry(table, k)));
    }
}

impl SparseArray<FieldElement> {
    /// Packs a dense table (see the module documentation) and builds the
    /// sparse table of the packed entries over `[0, max_size - 1]`.
    pub fn create_packed(table: &[FieldElement], max_size: u32) -> (r: SparseArray<FieldElement>)
        requires
            max_size >= 1,
            forall|k: nat| packed_has(table@, k) ==> k < max_size,
            forall|k: nat| packed_has(table@, k) ==> packed_value(table@, k) < capacity(),
            table@.len() + 256 * max_size + 3 <= usize::MAX,
        ensures
            r.default_value() == (FieldElement { hi: 0, lo: 0 }),
            exists|keys: Seq<FieldElement>, values: Seq<FieldElement>|
                packed_entries(table@, keys, values)
                && r.built_from(keys, values, (FieldElement { hi: 0, lo: max_size as u128 })),
    {
        let n = table.len();
        let mut keys: Vec<FieldElement> = Vec::new();
        let mut values: Vec<FieldElement> = Vec::new();
        let mut max_value = FieldElement::default();
        let zero = FieldElement::zero();
        let mut i: usize = 0;
        while i < n
            invariant
                n == table@.len(),
                zero.value() == 0,
                i <= n,
                max_value.value() == max_entry(table@.subrange(0, i as int)),
                keys@.len() <= i,
                keys@.len() == values@.len(),
                distinct_keys(keys@),
                forall|p: int| 0 <= p < keys@.len() ==> (#[trigger] keys@[p]).value() < i,
                forall|k: nat| #[trigger] has_key(keys@, k) == (k < i && direct_entry(table@, k)),
                forall|k: nat| #[trigger] entry_sum(keys@, values@, k) == if k < i && direct_entry(table@, k) {
                    table@[k as int].value()
                } else {
                    0
                },
            decreases n - i,
        {
            proof {
                let t = table@.subrange(0, i + 1);
                assert(t.drop_last() =~= table@.subrange(0, i as int));
            }
            if max_value.lt(&table[i]) {
                max_value = table[i];
            }
            proof {
                crate::field::lemma_order(table@[i as int], zero);
            }
            if table[i] != zero {
                let key = FieldElement::from_u64(i as u64);
                proof {
                    assert forall|p: int| 0 <= p < keys@.len() implies keys@[p] != key by {
                        assert(keys@[p].value() < i);
                    }
                    assert forall|p: int, q: int| 0 <= p < q < keys@.len() + 1 implies keys@.push(key)[p] != keys@.push(key)[q] by {
                        if q < keys@.len() {
                            assert(keys@.push(key)[q] == keys@[q]);
                        }
                    }
                    assert forall|k: nat| #[trigger] has_key(keys@.push(key), k) == (has_key(keys@, k) || k == i) by {
                        lemma_entry_push(keys@, values@, key, table@[i as int], k);
                    }
                    assert forall|k: nat| #[trigger] entry_sum(keys@.push(key), values@.push(table@[i as int]), k) == entry_sum(keys@, values@, k) + if k == i {
                        table@[i as int].value()
                    } else {
                        0
                    } by {
                        lemma_entry_push(keys@, values@, key, table@[i as int], k);
                    }
                }
                keys.push(key);
                values.push(table[i]);
            }
            proof {
                assert(direct_entry(table@, i as nat) == (table@[i as int] != zero));
                assert forall|k: nat| #[trigger] has_key(keys@, k) == (k < i + 1 && direct_entry(table@, k)) by {}
                assert forall|k: nat| #[trigger] entry_sum(keys@, values@, k) == if k < i + 1 && direct_entry(table@, k) {
                    table@[k as int].value()
                } else {
                    0
                } by {}
            }
            i = i + 1;
        }
        proof {
            assert(table@.subrange(0, n as int) =~= table@);
        }
        let m: u64 = if max_value.hi == 0 && max_value.lo <= u64::MAX as u128 {
            max_value.lo as u64
        } else {
            u64::MAX
        };
        proof {
            if max_value.hi > 0 {
                assert(max_value.hi as nat * half_base() >= half_base()) by (nonlinear_arith)
                    requires max_value.hi > 0;
            }
        }

        let limit: usize = if n < 256 { n } else { 256 };
        let mut s: usize = 0;
        proof {
            assert forall|k: nat| #[trigger] has_key(keys@, k) == (direct_entry(table@, k) || (repeated_entry(table@, k) && repeat_done(k, 0, 0))) by {}
        }
        while s < limit
            invariant
                n == table@.len(),
                zero.value() == 0,
                limit <= 256,
                limit <= n,
                limit == n || limit == 256,
                s <= limit,
                repeat_count(table@) <= u64::MAX ==> m == repeat_count(table@),
                forall|k: nat| packed_has(table@, k) ==> k < max_size,
                forall|k: nat| packed_has(table@, k) ==> packed_value(table@, k) < capacity(),
                n + 256 * max_size + 3 <= usize::MAX,
                keys@.len() <= n + s * max_size,
                partly_packed(table@, keys@, values@, s as nat, 0),
            decreases limit - s,
        {
            proof {
                crate::field::lemma_order(table@[s as int], zero);
            }
            if table[s] != zero {
                proof {
                    let big_m = repeat_count(table@);
                    lemma_max_entry_ge(table@, s as int);
                    let last_key: nat = ((big_m - 1) * 256 + s) as nat;
                    vstd::arithmetic::div_mod::lemma_fundamental_div_mod_converse(last_key as int, 256, big_m - 1, s as int);
                    assert(repeated_entry(table@, last_key));
                    assert(packed_has(table@, last_key));
                    assert(last_key < max_size);
                    vstd::arithmetic::div_mod::lemma_fundamental_div_mod_converse(s as int, 256, 0, s as int);
                    assert(repeated_entry(table@, s as nat));
                    assert(packed_has(table@, s as nat));
                    assert(packed_value(table@, s as nat) < capacity());
                }
                let add = times_256(table[s]);
                let mut j: u64 = 0;
                while j < m
                    invariant
                        n == table@.len(),
                        limit <= 256,
                        limit <= n,
                        s < limit,
                        j <= m,
                        m == repeat_count(table@),
                        m <= max_size,
                        table@[s as int].value() != 0,
                        add.value() == table@[s as int].value() * 256,
                        forall|k: nat| packed_has(table@, k) ==> k < max_size,
                        forall|k: nat| packed_has(table@, k) ==> packed_value(table@, k) < capacity(),
                        n + 256 * max_size + 3 <= usize::MAX,
                        keys@.len() <= n + s * max_size + j,
                        partly_packed(table@, keys@, values@, s as nat, j as nat),
                    decreases m - j,
                {
                    proof {
                        let t0: nat = (j * 256 + s) as nat;
                        vstd::arithmetic::div_mod::lemma_fundamental_div_mod_converse(t0 as int, 256, j as int, s as int);
                        assert(repeated_entry(table@, t0));
                        assert(packed_has(table@, t0));
                        assert(t0 < max_size);
                    }
                    let target = FieldElement::from_u64(j * 256 + s as u64);
                    let ghost t = target.value();
                    proof {
                        vstd::arithmetic::div_mod::lemma_fundamental_div_mod_converse(t as int, 256, j as int, s as int);
                        assert(repeated_entry(table@, t));
                        assert(!repeat_done(t, s as nat, j as nat));
                        assert(packed_has(table@, t));
                        assert(packed_value(table@, t) < capacity());
                        assert(entry_sum(keys@, values@, t) + add.value() < capacity());
                    }
                    let ghost before_keys = keys@;
                    let ghost before_values = values@;
                    accumulate(&mut keys, &mut values, target, add);
                    proof {
                        assert forall|k: nat| #[trigger] repeat_done(k, s as nat, (j + 1) as nat) == (repeat_done(k, s as nat, j as nat) || k == t) by {
                            vstd::arithmetic::div_mod::lemma_fundamental_div_mod(k as int, 256);
                        }
                        assert forall|k: nat| #[trigger] has_key(keys@, k) == (direct_entry(table@, k) || (repeated_entry(table@, k) && repeat_done(k, s as nat, (j + 1) as nat))) by {
                            assert(repeat_done(k, s as nat, (j + 1) as nat) == (repeat_done(k, s as nat, j as nat) || k == t));
                            assert(has_key(before_keys, k) == (direct_entry(table@, k) || (repeated_entry(table@, k) && repeat_done(k, s as nat, j as nat))));
                        }
                        assert forall|k: nat| #[trigger] entry_sum(keys@, values@, k) == (if direct_entry(table@, k) {
                            table@[k as int].value()
                        } else {
                            0
                        }) + (if repeated_entry(table@, k) && repeat_done(k, s as nat, (j + 1) as nat) {
                            table@[(k % 256) as int].value() * 256
                        } else {
                            0
                        }) by {
                            assert(repeat_done(k, s as nat, (j + 1) as nat) == (repeat_done(k, s as nat, j as nat) || k == t));
                            assert(entry_sum(before_keys, before_values, k) == (if direct_entry(table@, k) {
                                table@[k as int].value()
                            } else {
                                0
                            }) + (if repeated_entry(table@, k) && repeat_done(k, s as nat, j as nat) {
                                table@[(k % 256) as int].value() * 256
                            } else {
                                0
                            }));
                        }
                    }
                    j = j + 1;
                }
                proof {
                    assert(n + s * max_size + m <= n + (s + 1) * max_size) by (nonlinear_arith)
                        requires m <= max_size;
                    lemma_byte_done(table@, keys@, values@, s as nat, j as nat);
                }
            } else {
                proof {
                    crate::field::lemma_order(table@[s as int], zero);
                    assert(s * max_size <= (s + 1) * max_size) by (nonlinear_arith);
                    lemma_byte_done(table@, keys@, values@, s as nat, 0);
                }
            }
            s = s + 1;
        }
        proof {
            assert(s * max_size <= 256 * max_size) by (nonlinear_arith)
                requires s <= 256;
            assert forall|k: nat| #[trigger] has_key(keys@, k) == packed_has(table@, k) by {
                if repeated_entry(table@, k) {
                    assert(repeat_done(k, s as nat, 0));
                }
            }
            assert forall|k: nat| #[trigger] entry_sum(keys@, values@, k) == packed_value(table@, k) by {
                if repeated_entry(table@, k) {
                    assert(repeat_done(k, s as nat, 0));
                }
            }
            assert(packed_entries(table@, keys@, values@));
        }
        let size = FieldElement::from_u32(max_size);
        proof {
            assert forall|p: int| 0 <= p < keys@.len() implies (#[trigger] keys@[p]).value() <= size.value() - 1 by {
                assert(has_key(keys@, keys@[p].value()));
            }
        }
        let r = Self::create(keys.as_slice(), values.as_slice(), size);
        r
    }
}

/// After packing, every lookup gives the packed value: the sum of the
/// entry's own value and the scaled value it repeats, and zero for an index
/// that is no packed key.
pub proof fn lemma_packed_lookup(
    t: SparseArray<FieldElement>,
    table: Seq<FieldElement>,
    keys: Seq<FieldElement>,
    values: Seq<FieldElement>,
    size: FieldElement,
    index: FieldElement,
)
    requires
        packed_entries(table, keys, values),
        t.built_from(keys, values, size),
        t.default_value().value() == 0,
    ensures
        t.lookup(index).value() == packed_value(table, index.value()),
{
    if packed_has(table, index.value()) {
        assert(has_key(keys, index.value()));
        let p = choose|p: int| 0 <= p < keys.len() && (#[trigger] keys[p]).value() == index.value();
        crate::field::lemma_order(keys[p], index);
        lemma_entry_single(keys, values, p);
        crate::sparse::lemma_lookup_entry(t, keys, values, size, p);
    } else if index.value() < size.value() {
        assert(!has_key(keys, index.value()));
        assert forall|j: int| 0 <= j < keys.len() implies #[trigger] keys[j] != index by {
            if keys[j] == index {
                assert(keys[j].value() == index.value());
            }
        }
        crate::sparse::lemma_lookup_hole(t, keys, values, size, index);
    } else {
        crate::sparse::lemma_lookup_out_of_range(t, keys, values, size, index);
    }
}

} // verus!
