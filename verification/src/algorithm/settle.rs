//! Solving through the store of results: what was solved once for a deficit
//! and a set of slots is not solved again.

use crate::algorithm::cache::{
    cache_entries, cache_get, cache_insert, cache_new, no_entries, result_view, Answer, ResultCache,
};
use crate::algorithm::decorate::{answers, counts, start_budget, DecorationTables};
use crate::algorithm::monotone::{dominated, roomier};
use vstd::prelude::*;

verus! {

/// The numbers that steer the use of the store.
#[derive(Debug, Clone, Copy)]
pub struct Tuning {
    /// How many results the store holds.
    pub cache_capacity: usize,
    /// The hardness above which results are kept.
    pub cache_from: i64,
    /// The hardness above which a failure is kept for smaller sets of slots
    /// too.
    pub guess_from: i64,
}

impl Tuning {
    /// The numbers that served well: 3000 results, kept from hardness 80,
    /// failures spread from hardness 200.
    pub fn standard() -> (r: Tuning)
        ensures
            r.cache_capacity == 3000,
            r.cache_from == 80,
            r.guess_from == 200,
    {
        Tuning { cache_capacity: 3000, cache_from: 80, guess_from: 200 }
    }
}

/// No hardness is counted beyond this.
pub const HARDNESS_CAP: i64 = 100_000;

/// How hard `deficits` are to close: the product of those of the first `upto`
/// deficits that are greater than two, counted up to `HARDNESS_CAP`.
pub open spec fn hardness(deficits: Seq<i32>, upto: int) -> int
    decreases upto,
{
    if upto <= 0 {
        1
    } else {
        let before = hardness(deficits, upto - 1);
        let v = deficits[upto - 1] as int;
        if v <= 2 {
            before
        } else if before * v > HARDNESS_CAP {
            HARDNESS_CAP as int
        } else {
            before * v
        }
    }
}

/// The key under which the result for `deficits` and the pieces
/// `slots_at_size` is kept.
pub open spec fn key_of(deficits: Seq<i32>, slots_at_size: (int, int, int)) -> Seq<i64> {
    Seq::new(
        deficits.len() + 3,
        |i: int|
            if i < deficits.len() {
                deficits[i] as i64
            } else if i == deficits.len() {
                slots_at_size.0 as i64
            } else if i == deficits.len() + 1 {
                slots_at_size.1 as i64
            } else {
                slots_at_size.2 as i64
            },
    )
}

/// `key` is the key of `deficits` and the slots, and `v` answers them.
pub open spec fn keyed(
    tables: &DecorationTables,
    key: Seq<i64>,
    v: Option<Seq<(usize, usize)>>,
    deficits: Seq<i32>,
    s0: u32,
    s1: u32,
    s2: u32,
) -> bool {
    &&& deficits.len() == tables.skills()
    &&& key == key_of(deficits, (s0 as int, s1 as int, s2 as int))
    &&& answers(tables, deficits, start_budget((s0 as int, s1 as int, s2 as int)), v)
}

/// What is kept under `key` answers the deficits and slots that `key` stands
/// for.
pub open spec fn entry_sound(tables: &DecorationTables, key: Seq<i64>, v: Option<Seq<(usize, usize)>>) -> bool {
    exists|deficits: Seq<i32>, s0: u32, s1: u32, s2: u32| #[trigger]
        keyed(tables, key, v, deficits, s0, s1, s2)
}

/// Every result in the store answers the deficits and slots of its key.
pub open spec fn cache_sound(
    tables: &DecorationTables,
    entries: Map<Seq<i64>, Option<Seq<(usize, usize)>>>,
) -> bool {
    forall|key: Seq<i64>| #[trigger]
        entries.contains_key(key) ==> entry_sound(tables, key, entries[key])
}

/// Two sets of deficits and slots with one key are the same.
pub proof fn lemma_key_of_injective(
    d1: Seq<i32>,
    s1: (int, int, int),
    d2: Seq<i32>,
    s2: (int, int, int),
)
    requires
        d1.len() == d2.len(),
        0 <= s1.0 <= u32::MAX,
        0 <= s1.1 <= u32::MAX,
        0 <= s1.2 <= u32::MAX,
        0 <= s2.0 <= u32::MAX,
        0 <= s2.1 <= u32::MAX,
        0 <= s2.2 <= u32::MAX,
        key_of(d1, s1) == key_of(d2, s2),
    ensures
        d1 == d2,
        s1 == s2,
{
    let k1 = key_of(d1, s1);
    let k2 = key_of(d2, s2);
    assert forall|i: int| 0 <= i < d1.len() implies d1[i] == d2[i] by {
        assert(k1[i] == k2[i]);
    }
    assert(d1 =~= d2);
    let n = d1.len() as int;
    assert(k1[n] == k2[n]);
    assert(k1[n + 1] == k2[n + 1]);
    assert(k1[n + 2] == k2[n + 2]);
}

/// Makes an empty store for about `capacity` results.
pub fn fresh_cache(capacity: usize) -> (cache: ResultCache)
    ensures
        cache_entries(cache) == no_entries(),
{
    cache_new(capacity)
}

fn hardness_of(deficits: &Vec<i32>) -> (r: i64)
    ensures
        r == hardness(deficits@, deficits.len() as int),
        1 <= r <= HARDNESS_CAP,
{
    let mut acc: i64 = 1;
    let mut i: usize = 0;
    while i < deficits.len()
        invariant
            i <= deficits.len(),
            acc == hardness(deficits@, i as int),
            1 <= acc <= HARDNESS_CAP,
        decreases deficits.len() - i,
    {
        let v = deficits[i] as i64;
        if v > 2 {
            assert(1 <= acc * v <= 100_000 * 0x8000_0000) by (nonlinear_arith)
                requires
                    1 <= acc <= 100_000,
                    2 < v <= 0x8000_0000,
            ;
            let p = acc * v;
            acc = if p > HARDNESS_CAP {
                HARDNESS_CAP
            } else {
                p
            };
        }
        i += 1;
    }
    acc
}

fn copy_answer(v: &Answer) -> (r: Answer)
    ensures
        result_view(r) == result_view(*v),
{
    match v {
        None => None,
        Some(a) => {
            let mut out: Vec<(usize, usize)> = Vec::new();
            let mut i: usize = 0;
            while i < a.len()
                invariant
                    i <= a.len(),
                    out@ == a@.take(i as int),
                decreases a.len() - i,
            {
                out.push(a[i]);
                assert(a@.take(i + 1) =~= a@.take(i as int).push(a@[i as int]));
                i += 1;
            }
            assert(a@.take(a.len() as int) =~= a@);
            Some(out)
        },
    }
}

fn make_key(deficits: &Vec<i32>, slots_at_size: &[u32; 3]) -> (key: Vec<i64>)
    ensures
        key@ == key_of(deficits@, counts(*slots_at_size)),
{
    let mut key: Vec<i64> = Vec::new();
    let mut i: usize = 0;
    while i < deficits.len()
        invariant
            i <= deficits.len(),
            key.len() == i,
            forall|j: int| 0 <= j < i ==> key[j] == deficits[j] as i64,
        decreases deficits.len() - i,
    {
        key.push(deficits[i] as i64);
        i += 1;
    }
    key.push(slots_at_size[0] as i64);
    key.push(slots_at_size[1] as i64);
    key.push(slots_at_size[2] as i64);
    assert(key@ =~= key_of(deficits@, counts(*slots_at_size)));
    key
}

impl DecorationTables {
    /// Hands "no result" for `deficits` and the smaller set of slots `fewer`
    /// to the store, which keeps it as long as it has room.
    fn keep_failure(
        &self,
        deficits: &Vec<i32>,
        slots_at_size: &[u32; 3],
        fewer: [u32; 3],
        cache: &mut ResultCache,
    )
        requires
            self.wf(),
            deficits.len() == self.skills(),
            cache_sound(self, cache_entries(*old(cache))),
            !self.feasible(deficits@, start_budget(counts(*slots_at_size))),
            roomier(start_budget(counts(*slots_at_size)), start_budget(counts(fewer))),
        ensures
            cache_sound(self, cache_entries(*final(cache))),
            holds_at_most(
                cache_entries(*old(cache)),
                cache_entries(*final(cache)),
                key_of(deficits@, counts(fewer)),
                None,
            ),
    {
        let key = make_key(deficits, &fewer);
        proof {
            if self.feasible(deficits@, start_budget(counts(fewer))) {
                self.lemma_feasible_monotone(
                    deficits@,
                    deficits@,
                    start_budget(counts(*slots_at_size)),
                    start_budget(counts(fewer)),
                );
            }
            assert(keyed(self, key@, None, deficits@, fewer[0], fewer[1], fewer[2]));
        }
        cache_insert(cache, key, None);
    }

    /// Solves `deficits` within the slots of the pieces `slots_at_size`, and
    /// gives the answer that `check_decorations` gives, but through the
    /// store: where `deficits` are hard, a result that the store holds is
    /// handed out, and a new one is kept. Where they are very hard and cannot
    /// be closed, "no result" is kept for some smaller sets of slots too.
    /// The deficits are kept as they are: a surplus is not raised to zero,
    /// because it may pay for what the decorations of another skill take.
    pub fn settle(
        &self,
        deficits: &Vec<i32>,
        slots_at_size: &[u32; 3],
        cache: &mut ResultCache,
        tuning: &Tuning,
    ) -> (r: Answer)
        requires
            self.wf(),
            deficits.len() == self.skills(),
            start_budget(counts(*slots_at_size)).0 <= i32::MAX,
            cache_sound(self, cache_entries(*old(cache))),
        ensures
            cache_sound(self, cache_entries(*final(cache))),
            answers(self, deficits@, start_budget(counts(*slots_at_size)), result_view(r)),
    {
        let hard = hardness_of(deficits);
        if hard <= tuning.cache_from {
            return self.check_decorations(deficits, slots_at_size);
        }
        let key = make_key(deficits, slots_at_size);
        let ghost budget = start_budget(counts(*slots_at_size));
        match cache_get(cache, &key) {
            Some(v) => {
                proof {
                    assert(cache_entries(*cache).contains_key(key@));
                    assert(entry_sound(self, key@, result_view(v)));
                    let (d, s0, s1, s2) = choose|d: Seq<i32>, s0: u32, s1: u32, s2: u32| #[trigger]
                        keyed(self, key@, result_view(v), d, s0, s1, s2);
                    lemma_key_of_injective(
                        d,
                        (s0 as int, s1 as int, s2 as int),
                        deficits@,
                        counts(*slots_at_size),
                    );
                }
                v
            },
            None => {
                let v = self.check_decorations(deficits, slots_at_size);
                let kept = copy_answer(&v);
                proof {
                    assert(keyed(
                        self,
                        key@,
                        result_view(kept),
                        deficits@,
                        slots_at_size[0],
                        slots_at_size[1],
                        slots_at_size[2],
                    ));
                }
                cache_insert(cache, key, kept);
                if v.is_none() && hard > tuning.guess_from {
                    let s0 = slots_at_size[0];
                    let s1 = slots_at_size[1];
                    let s2 = slots_at_size[2];
                    if s0 > 0 {
                        self.keep_failure(deficits, slots_at_size, [s0 - 1, s1, s2], cache);
                    }
                    if s1 > 0 {
                        self.keep_failure(deficits, slots_at_size, [s0, s1 - 1, s2], cache);
                        if s0 < u32::MAX - 1 {
                            self.keep_failure(deficits, slots_at_size, [s0 + 1, s1 - 1, s2], cache);
                            self.keep_failure(deficits, slots_at_size, [s0 + 2, s1 - 1, s2], cache);
                        }
                    }
                    if s2 > 0 && s0 < u32::MAX - 1 && s1 < u32::MAX {
                        self.keep_failure(deficits, slots_at_size, [s0 + 2, s1, s2 - 1], cache);
                        self.keep_failure(deficits, slots_at_size, [s0 + 1, s1 + 1, s2 - 1], cache);
                    }
                }
                v
            },
        }
    }
}

/// The store `after` holds nothing but `value` under `key` and what the store
/// `before` held under other keys: `value` was handed to the store under
/// `key`, and the store may have dropped any of its entries to keep within
/// its capacity.
pub open spec fn holds_at_most(
    before: Map<Seq<i64>, Option<Seq<(usize, usize)>>>,
    after: Map<Seq<i64>, Option<Seq<(usize, usize)>>>,
    key: Seq<i64>,
    value: Option<Seq<(usize, usize)>>,
) -> bool {
    forall|k: Seq<i64>| #[trigger]
        after.contains_key(k) ==> (k == key && after[k] == value) || (k != key
            && before.contains_key(k) && after[k] == before[k])
}

} // verus!
