use vstd::prelude::*;
use crate::element::{Element, Sexp};

verus! {

#[verifier::external_type_specification]
#[verifier::external_body]
#[verifier::reject_recursive_types(D)]
pub struct ExFstMap<D>(fst::Map<D>);

/// What an `fst::Map` holds: each stored key with its value.
pub uninterp spec fn fst_entries(m: fst::Map<Vec<u8>>) -> Map<Seq<u8>, u64>;

/// Lexicographic order on byte strings, the order of `[u8]`'s `Ord`.
pub open spec fn bytes_lt(a: Seq<u8>, b: Seq<u8>) -> bool
    decreases a.len(),
{
    if a.len() == 0 {
        b.len() > 0
    } else if b.len() == 0 {
        false
    } else if a[0] != b[0] {
        a[0] < b[0]
    } else {
        bytes_lt(a.drop_first(), b.drop_first())
    }
}

/// Keys in strictly increasing order.
pub open spec fn strictly_sorted(v: Seq<(Vec<u8>, u64)>) -> bool {
    forall|i: int, j: int| 0 <= i < j < v.len() ==> #[trigger] bytes_lt(v[i].0@, v[j].0@)
}

pub proof fn lemma_bytes_lt_irreflexive(a: Seq<u8>)
    ensures
        !bytes_lt(a, a),
    decreases a.len(),
{
    if a.len() > 0 {
        lemma_bytes_lt_irreflexive(a.drop_first());
    }
}

pub proof fn lemma_bytes_lt_transitive(a: Seq<u8>, b: Seq<u8>, c: Seq<u8>)
    requires
        bytes_lt(a, b),
        bytes_lt(b, c),
    ensures
        bytes_lt(a, c),
    decreases a.len(),
{
    if a.len() > 0 && a[0] == b[0] && b[0] == c[0] {
        lemma_bytes_lt_transitive(a.drop_first(), b.drop_first(), c.drop_first());
    }
}

pub proof fn lemma_bytes_lt_total(a: Seq<u8>, b: Seq<u8>)
    requires
        a != b,
    ensures
        bytes_lt(a, b) || bytes_lt(b, a),
    decreases a.len(),
{
    if a.len() > 0 && b.len() > 0 && a[0] == b[0] {
        if a.drop_first() == b.drop_first() {
            assert(a =~= seq![a[0]] + a.drop_first());
            assert(b =~= seq![b[0]] + b.drop_first());
        }
        lemma_bytes_lt_total(a.drop_first(), b.drop_first());
    } else if a.len() == 0 && b.len() == 0 {
        assert(a =~= b);
    }
}

/// Compares two byte strings: negative, zero or positive as `a` is below, equal to
/// or above `b` in lexicographic order.
pub fn compare_bytes(a: &[u8], b: &[u8]) -> (r: i8)
    ensures
        r == 0 <==> a@ == b@,
        r < 0 <==> bytes_lt(a@, b@),
        r > 0 <==> bytes_lt(b@, a@),
{
    let mut i: usize = 0;
    assert(a@.skip(0) =~= a@);
    assert(b@.skip(0) =~= b@);
    while i < a.len() && i < b.len()
        invariant
            i <= a@.len(),
            i <= b@.len(),
            a@.take(i as int) == b@.take(i as int),
            bytes_lt(a@, b@) == bytes_lt(a@.skip(i as int), b@.skip(i as int)),
            bytes_lt(b@, a@) == bytes_lt(b@.skip(i as int), a@.skip(i as int)),
        decreases a@.len() - i,
    {
        if a[i] != b[i] {
            proof {
                assert(a@.skip(i as int)[0] == a@[i as int]);
                assert(b@.skip(i as int)[0] == b@[i as int]);
                assert(a@.take(i + 1)[i as int] != b@.take(i + 1)[i as int]);
            }
            if a[i] < b[i] {
                return -1;
            } else {
                return 1;
            }
        }
        proof {
            assert(a@.skip(i as int).drop_first() =~= a@.skip(i + 1));
            assert(b@.skip(i as int).drop_first() =~= b@.skip(i + 1));
            assert(a@.take(i + 1) =~= a@.take(i as int).push(a@[i as int]));
            assert(b@.take(i + 1) =~= b@.take(i as int).push(b@[i as int]));
        }
        i = i + 1;
    }
    if a.len() == b.len() {
        assert(a@ =~= a@.take(i as int));
        assert(b@ =~= b@.take(i as int));
        proof {
            lemma_bytes_lt_irreflexive(a@);
        }
        0
    } else if a.len() < b.len() {
        assert(a@.skip(i as int).len() == 0);
        assert(a@.take(i as int) =~= a@);
        assert(a@ != b@);
        -1
    } else {
        assert(b@.skip(i as int).len() == 0);
        assert(b@.take(i as int) =~= b@);
        assert(a@ != b@);
        1
    }
}

/// Relies on `fst::Map::from_iter`: in memory it fails only on keys that are not
/// unique and in lexicographic order, and the map holds exactly the given pairs.
#[verifier::external_body]
fn fst_from_sorted(entries: Vec<(Vec<u8>, u64)>) -> (r: Option<fst::Map<Vec<u8>>>)
    ensures
        strictly_sorted(entries@) ==> r is Some,
        r matches Some(m) ==> (forall|k: Seq<u8>| #[trigger]
            fst_entries(m).contains_key(k) <==> exists|i: int|
                0 <= i < entries@.len() && #[trigger] entries@[i].0@ == k),
        r matches Some(m) ==> (forall|i: int|
            0 <= i < entries@.len() ==> fst_entries(m)[#[trigger] entries@[i].0@] == entries@[i].1),
{
    fst::Map::from_iter(entries).ok()
}

/// Relies on `fst::Map::get`: the value stored under `key`, if any.
#[verifier::external_body]
fn fst_get(m: &fst::Map<Vec<u8>>, key: &[u8]) -> (r: Option<u64>)
    ensures
        r is Some <==> fst_entries(*m).contains_key(key@),
        r matches Some(v) ==> v == fst_entries(*m)[key@],
{
    m.get(key)
}

/// The compiled rules of one map: a key sequence, as UTF-8 bytes, to its actions.
pub struct KeySeqMap {
    pub fst: fst::Map<Vec<u8>>,
    pub values: Vec<Element>,
}

/// For rules in declaration order, the table where each key sequence
/// has the actions of its first rule.
pub open spec fn rule_table(rules: Seq<(Seq<u8>, Sexp)>) -> Map<Seq<u8>, Sexp>
    decreases rules.len(),
{
    if rules.len() == 0 {
        Map::empty()
    } else {
        let prev = rule_table(rules.drop_last());
        let last = rules.last();
        if prev.contains_key(last.0) {
            prev
        } else {
            prev.insert(last.0, last.1)
        }
    }
}

pub open spec fn rules_view(rules: Seq<(Vec<u8>, Element)>) -> Seq<(Seq<u8>, Sexp)> {
    Seq::new(rules.len(), |i: int| (rules[i].0@, rules[i].1@))
}

/// Where `key` goes among sorted entries: after every smaller key, and on the
/// entry that equals it, if there is one.
fn find_slot(sorted: &Vec<(Vec<u8>, u64)>, key: &[u8]) -> (r: (usize, bool))
    ensures
        r.0 <= sorted@.len(),
        forall|j: int| 0 <= j < r.0 ==> bytes_lt(#[trigger] sorted@[j].0@, key@),
        r.1 ==> r.0 < sorted@.len() && sorted@[r.0 as int].0@ == key@,
        !r.1 ==> r.0 == sorted@.len() || bytes_lt(key@, sorted@[r.0 as int].0@),
{
    let mut p: usize = 0;
    while p < sorted.len()
        invariant
            p <= sorted@.len(),
            forall|j: int| 0 <= j < p ==> bytes_lt(#[trigger] sorted@[j].0@, key@),
        decreases sorted@.len() - p,
    {
        let c = compare_bytes(sorted[p].0.as_slice(), key);
        if c == 0 {
            return (p, true);
        } else if c > 0 {
            return (p, false);
        }
        p = p + 1;
    }
    (p, false)
}

proof fn lemma_insert_sorted(v: Seq<(Vec<u8>, u64)>, p: int, x: (Vec<u8>, u64))
    requires
        strictly_sorted(v),
        0 <= p <= v.len(),
        forall|j: int| 0 <= j < p ==> bytes_lt(#[trigger] v[j].0@, x.0@),
        p < v.len() ==> bytes_lt(x.0@, v[p].0@),
    ensures
        strictly_sorted(v.insert(p, x)),
{
    let w = v.insert(p, x);
    assert forall|i: int, j: int| 0 <= i < j < w.len() implies #[trigger] bytes_lt(w[i].0@, w[j].0@) by {
        if j < p {
        } else if j == p {
        } else if i < p {
            if j - 1 > p {
                assert(bytes_lt(v[p].0@, v[j - 1].0@));
                lemma_bytes_lt_transitive(x.0@, v[p].0@, v[j - 1].0@);
            }
            lemma_bytes_lt_transitive(v[i].0@, x.0@, v[j - 1].0@);
        } else if i == p {
            if j - 1 > p {
                assert(bytes_lt(v[p].0@, v[j - 1].0@));
                lemma_bytes_lt_transitive(x.0@, v[p].0@, v[j - 1].0@);
            }
        } else {
            assert(bytes_lt(v[i - 1].0@, v[j - 1].0@));
        }
    }
}

impl KeySeqMap {
    /// Compiles rules, given in declaration order, into a table where each key
    /// sequence has the actions of its first rule.
    pub fn from_rules(rules: Vec<(Vec<u8>, Element)>) -> (r: KeySeqMap)
        ensures
            r.wf(),
            r@ == rule_table(rules_view(rules@)),
    {
        let ghost all = rules_view(rules@);
        let ghost orig = rules@;
        let mut rules = rules;
        let mut values: Vec<Element> = Vec::new();
        let mut sorted: Vec<(Vec<u8>, u64)> = Vec::new();
        let n = rules.len();
        assert(all.take(0) =~= Seq::<(Seq<u8>, Sexp)>::empty());
        while rules.len() > 0
            invariant
                n == orig.len(),
                all == rules_view(orig),
                values@.len() + rules@.len() == n,
                rules@ == orig.skip(values@.len() as int),
                forall|i: int| 0 <= i < values@.len() ==> (#[trigger] values@[i])@ == all[i].1,
                strictly_sorted(sorted@),
                forall|i: int| 0 <= i < sorted@.len() ==> {
                    let t = rule_table(all.take(values@.len() as int));
                    &&& (#[trigger] sorted@[i]).1 < values@.len()
                    &&& t.contains_key(sorted@[i].0@)
                    &&& t[sorted@[i].0@] == values@[sorted@[i].1 as int]@
                },
                forall|key: Seq<u8>| #[trigger]
                    rule_table(all.take(values@.len() as int)).contains_key(key) ==> exists|i: int|
                        0 <= i < sorted@.len() && #[trigger] sorted@[i].0@ == key,
            decreases rules@.len(),
        {
            let ghost k = values@.len() as int;
            let ghost t = rule_table(all.take(k));
            let (key, act) = rules.remove(0);
            assert(orig[k] == (key, act));
            assert(rules@ =~= orig.skip(k + 1));
            assert(all.take(k + 1).drop_last() =~= all.take(k));
            assert(all.take(k + 1).last() == (key@, act@));
            let (p, found) = find_slot(&sorted, key.as_slice());
            let idx = values.len() as u64;
            values.push(act);
            if !found {
                proof {
                    assert(!t.contains_key(key@)) by {
                        if t.contains_key(key@) {
                            let i = choose|i: int| 0 <= i < sorted@.len() && #[trigger] sorted@[i].0@ == key@;
                            lemma_bytes_lt_irreflexive(key@);
                            if i > p {
                                lemma_bytes_lt_transitive(key@, sorted@[p as int].0@, key@);
                            }
                        }
                    }
                    lemma_insert_sorted(sorted@, p as int, (key, idx));
                }
                let ghost before = sorted@;
                sorted.insert(p, (key, idx));
                proof {
                    let t2 = rule_table(all.take(k + 1));
                    assert(t2 == t.insert(key@, act@));
                    assert forall|i: int| 0 <= i < sorted@.len() implies {
                        &&& (#[trigger] sorted@[i]).1 < values@.len()
                        &&& t2.contains_key(sorted@[i].0@)
                        &&& t2[sorted@[i].0@] == values@[sorted@[i].1 as int]@
                    } by {
                        if i < p {
                            assert(sorted@[i] == before[i]);
                        } else if i > p {
                            assert(sorted@[i] == before[i - 1]);
                        }
                    }
                    assert forall|key2: Seq<u8>| #[trigger] t2.contains_key(key2) implies exists|i: int|
                        0 <= i < sorted@.len() && #[trigger] sorted@[i].0@ == key2 by {
                        if key2 == key@ {
                            assert(sorted@[p as int].0@ == key2);
                        } else {
                            assert(t.contains_key(key2));
                            let i = choose|i: int| 0 <= i < before.len() && #[trigger] before[i].0@ == key2;
                            if i < p {
                                assert(sorted@[i] == before[i]);
                            } else {
                                assert(sorted@[i + 1] == before[i]);
                            }
                        }
                    }
                }
            } else {
                proof {
                    let t2 = rule_table(all.take(k + 1));
                    assert(t.contains_key(key@));
                    assert(t2 == t);
                }
            }
        }
        assert(values@.len() == n);
        assert(all.take(n as int) =~= all);
        let ghost entries = sorted@;
        let fst = fst_from_sorted(sorted).unwrap();
        let r = KeySeqMap { fst, values };
        proof {
            let t = rule_table(all);
            assert forall|key: Seq<u8>| #[trigger] fst_entries(r.fst).contains_key(key) implies
                fst_entries(r.fst)[key] < r.values@.len() && t.contains_key(key)
                && t[key] == r.values@[fst_entries(r.fst)[key] as int]@ by {
                let i = choose|i: int| 0 <= i < entries.len() && #[trigger] entries[i].0@ == key;
            }
            assert forall|key: Seq<u8>| #[trigger] t.contains_key(key) implies
                fst_entries(r.fst).contains_key(key) by {
                let i = choose|i: int| 0 <= i < entries.len() && #[trigger] entries[i].0@ == key;
            }
            assert(r@ =~= t);
        }
        r
    }

    pub open spec fn wf(&self) -> bool {
        forall|k: Seq<u8>| #[trigger]
            fst_entries(self.fst).contains_key(k) ==> fst_entries(self.fst)[k] < self.values@.len()
    }


    /// The table as a map from key bytes to actions.
    pub open spec fn view(&self) -> Map<Seq<u8>, Sexp> {
        Map::new(
            |k: Seq<u8>| fst_entries(self.fst).contains_key(k),
            |k: Seq<u8>| self.values@[fst_entries(self.fst)[k] as int]@,
        )
    }

    /// The actions stored under `key`.
    pub fn lookup(&self, key: &[u8]) -> (r: Option<&Element>)
        requires
            self.wf(),
        ensures
            r is Some <==> self@.contains_key(key@),
            r matches Some(e) ==> e@ == self@[key@],
    {
        match fst_get(&self.fst, key) {
            Some(i) => {
                assert(fst_entries(self.fst).contains_key(key@));
                let n = self.values.len();
                assert(i < n);
                let idx = i as usize;
                Some(&self.values[idx])
            },
            None => None,
        }
    }
}

} // verus!
