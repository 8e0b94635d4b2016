use crate::field::{Field, Key};
use crate::order::{key_less, lemma_key_order};
use crate::record::Record;
use vstd::prelude::*;

verus! {

/// The index of one label's records: one level per field position, each
/// level keyed by the value at that position.
#[derive(Debug)]
pub enum RecordTree {
    /// Children by the key of the next field, in increasing key order.
    Index(Vec<(Field, RecordTree)>),
    /// The record whose fields lead here.
    Unit(Record),
    /// No record yet.
    Void,
}

/// The keys of fields `d..` of `keys`.
pub open spec fn key_path(keys: Seq<Field>, d: int) -> Seq<Key> {
    Seq::new((keys.len() - d) as nat, |i: int| keys[d + i].key())
}

/// A path matches a filter from position `d` on where each value that the
/// filter gives equals the path's key there.
pub open spec fn path_matches(p: Seq<Key>, f: Seq<Option<Field>>, d: int) -> bool {
    &&& p.len() == f.len() - d
    &&& forall|i: int| 0 <= i < p.len() ==> (#[trigger] f[d + i] matches Some(g) ==> p[i] == g.key())
}

/// Children in strictly increasing order of key.
pub open spec fn sorted(ch: Seq<(Field, RecordTree)>) -> bool {
    forall|i: int, j: int| 0 <= i < j < ch.len() ==> key_less((#[trigger] ch[i]).0.key(), (#[trigger] ch[j]).0.key())
}

proof fn lemma_sorted_distinct(ch: Seq<(Field, RecordTree)>, i: int, j: int)
    requires
        sorted(ch),
        0 <= i < ch.len(),
        0 <= j < ch.len(),
        i != j,
    ensures
        ch[i].0.key() != ch[j].0.key(),
{
    lemma_key_order(ch[i].0.key(), ch[j].0.key(), ch[j].0.key());
    lemma_key_order(ch[j].0.key(), ch[i].0.key(), ch[i].0.key());
}

/// Finds by halving the child whose key is that of `g`: `(true, i)` when child
/// `i` has it, else `(false, i)` with `i` the place where such a child would go.
fn locate(ch: &Vec<(Field, RecordTree)>, g: &Field) -> (r: (bool, usize))
    requires
        sorted(ch@),
    ensures
        r.1 <= ch@.len(),
        r.0 ==> r.1 < ch@.len() && ch@[r.1 as int].0.key() == g.key(),
        !r.0 ==> forall|j: int| 0 <= j < r.1 ==> key_less((#[trigger] ch@[j]).0.key(), g.key()),
        !r.0 ==> forall|j: int| r.1 <= j < ch@.len() ==> key_less(g.key(), (#[trigger] ch@[j]).0.key()),
        !r.0 ==> forall|j: int| 0 <= j < ch@.len() ==> (#[trigger] ch@[j]).0.key() != g.key(),
{
    let mut lo: usize = 0;
    let mut hi: usize = ch.len();
    while lo < hi
        invariant
            0 <= lo <= hi <= ch@.len(),
            sorted(ch@),
            forall|j: int| 0 <= j < lo ==> key_less((#[trigger] ch@[j]).0.key(), g.key()),
            forall|j: int| hi <= j < ch@.len() ==> key_less(g.key(), (#[trigger] ch@[j]).0.key()),
        decreases hi - lo,
    {
        let mid = lo + (hi - lo) / 2;
        let c = ch[mid].0.compare_key(g);
        if c == 0 {
            return (true, mid);
        } else if c < 0 {
            assert forall|j: int| 0 <= j < mid + 1 implies key_less((#[trigger] ch@[j]).0.key(), g.key()) by {
                if j < mid {
                    lemma_key_order(ch@[j].0.key(), ch@[mid as int].0.key(), g.key());
                }
            }
            lo = mid + 1;
        } else {
            assert forall|j: int| mid <= j < ch@.len() implies key_less(g.key(), (#[trigger] ch@[j]).0.key()) by {
                if j > mid {
                    lemma_key_order(g.key(), ch@[mid as int].0.key(), ch@[j].0.key());
                }
            }
            hi = mid;
        }
    }
    assert forall|j: int| 0 <= j < ch@.len() implies (#[trigger] ch@[j]).0.key() != g.key() by {
        lemma_key_order(ch@[j].0.key(), g.key(), g.key());
        lemma_key_order(g.key(), ch@[j].0.key(), ch@[j].0.key());
    }
    (false, lo)
}

/// Each record of `t` stands at one path only.
pub open spec fn single_paths(t: RecordTree) -> bool {
    forall|p: Seq<Key>, q: Seq<Key>, x: Record| #[trigger] t.holds(p, x) && #[trigger] t.holds(q, x) ==> p == q
}

proof fn lemma_child_single(t: RecordTree, i: int)
    requires
        t is Index,
        0 <= i < t->Index_0@.len(),
        single_paths(t),
    ensures
        single_paths(t->Index_0@[i].1),
{
    let ch = t->Index_0@;
    let c = ch[i].1;
    assert forall|p: Seq<Key>, q: Seq<Key>, x: Record| #[trigger] c.holds(p, x) && #[trigger] c.holds(q, x) implies p == q by {
        let pp = seq![ch[i].0.key()] + p;
        let qq = seq![ch[i].0.key()] + q;
        assert(pp.drop_first() =~= p);
        assert(qq.drop_first() =~= q);
        assert(t.holds(pp, x));
        assert(t.holds(qq, x));
        assert(pp == qq);
        assert(p == pp.drop_first());
    }
}

proof fn lemma_found_in_one_child(t: RecordTree, f: Seq<Option<Field>>, d: int, j: int, i: int, x: Record)
    requires
        t is Index,
        0 <= d < f.len(),
        t.wf((f.len() - d) as nat),
        single_paths(t),
        0 <= j < t->Index_0@.len(),
        0 <= i < t->Index_0@.len(),
        j != i,
    ensures
        !(t->Index_0@[j].1.found(f, d + 1, x) && t->Index_0@[i].1.found(f, d + 1, x)),
{
    let ch = t->Index_0@;
    if ch[j].1.found(f, d + 1, x) && ch[i].1.found(f, d + 1, x) {
        assert(ch[j].1.wf((f.len() - d - 1) as nat));
        assert(ch[i].1.wf((f.len() - d - 1) as nat));
        lemma_found_iff_path(ch[j].1, f, d + 1, x);
        lemma_found_iff_path(ch[i].1, f, d + 1, x);
        let p = choose|p: Seq<Key>| #[trigger] ch[j].1.holds(p, x) && path_matches(p, f, d + 1);
        let q = choose|q: Seq<Key>| #[trigger] ch[i].1.holds(q, x) && path_matches(q, f, d + 1);
        let pp = seq![ch[j].0.key()] + p;
        let qq = seq![ch[i].0.key()] + q;
        assert(pp.drop_first() =~= p);
        assert(qq.drop_first() =~= q);
        assert(t.holds(pp, x));
        assert(t.holds(qq, x));
        assert(pp[0] == qq[0]);
        lemma_sorted_distinct(ch, j, i);
    }
}

impl RecordTree {
    /// Record `r` stands at path `p`.
    pub open spec fn holds(self, p: Seq<Key>, r: Record) -> bool
        decreases self,
    {
        match self {
            RecordTree::Void => false,
            RecordTree::Unit(x) => p.len() == 0 && r == x,
            RecordTree::Index(ch) => p.len() > 0 && exists|i: int|
                0 <= i < ch.len() && (#[trigger] ch[i]).0.key() == p[0] && ch[i].1.holds(p.drop_first(), r),
        }
    }

    /// Record `r` is reached by a walk that follows filter `f` from position `d`:
    /// a given value follows the child of its key, a wildcard every child.
    pub open spec fn found(self, f: Seq<Option<Field>>, d: int, r: Record) -> bool
        decreases self,
    {
        match self {
            RecordTree::Void => false,
            RecordTree::Unit(x) => r == x,
            RecordTree::Index(ch) => exists|i: int|
                0 <= i < ch.len() && (f[d] matches Some(g) ==> (#[trigger] ch[i]).0.key() == g.key()) && ch[i].1.found(
                    f,
                    d + 1,
                    r,
                ),
        }
    }

    /// Every path has `n` levels, siblings are sorted by key, and only the
    /// whole tree may be empty.
    pub open spec fn wf(self, n: nat) -> bool
        decreases self,
    {
        match self {
            RecordTree::Void => true,
            RecordTree::Unit(_) => n == 0,
            RecordTree::Index(ch) => {
                &&& n > 0
                &&& sorted(ch@)
                &&& forall|i: int| 0 <= i < ch.len() ==> (#[trigger] ch[i]).1.wf((n - 1) as nat) && !(ch[i].1 is Void)
            },
        }
    }
}

impl RecordTree {
    /// Every record reached by a walk that follows filter `f` from position `d`.
    pub fn find<'a>(&'a self, f: &[Option<Field>], d: usize) -> (r: Vec<&'a Record>)
        requires
            d <= f@.len(),
            self.wf((f@.len() - d) as nat),
            single_paths(*self),
        ensures
            forall|x: Record| r@.contains(&x) <==> self.found(f@, d as int, x),
            r@.no_duplicates(),
        decreases self,
    {
        match self {
            RecordTree::Void => Vec::new(),
            RecordTree::Unit(x) => {
                let mut v: Vec<&Record> = Vec::new();
                v.push(x);
                assert forall|y: Record| v@.contains(&y) <==> self.found(f@, d as int, y) by {
                    if y == *x {
                        assert(v@[0] == x);
                    }
                }
                v
            },
            RecordTree::Index(ch) => {
                let n = f.len();
                match &f[d] {
                    Some(g) => {
                        let (hit, i) = locate(ch, g);
                        if hit {
                            assert(ch@[i as int].1.wf((f@.len() - d - 1) as nat));
                            proof {
                                lemma_child_single(*self, i as int);
                            }
                            let r = ch[i].1.find(f, d + 1);
                            assert forall|x: Record| r@.contains(&x) <==> self.found(f@, d as int, x) by {
                                if self.found(f@, d as int, x) {
                                    let j = choose|j: int|
                                        0 <= j < ch.len() && (f@[d as int] matches Some(g) ==> (#[trigger] ch@[j]).0.key() == g.key())
                                            && ch@[j].1.found(f@, d + 1, x);
                                    if j != i {
                                        lemma_sorted_distinct(ch@, j, i as int);
                                    }
                                }
                                if r@.contains(&x) {
                                    assert(ch@[i as int].1.found(f@, d + 1, x));
                                }
                            }
                            return r;
                        }
                        let r: Vec<&Record> = Vec::new();
                        assert forall|x: Record| r@.contains(&x) <==> self.found(f@, d as int, x) by {
                            if self.found(f@, d as int, x) {
                                let j = choose|j: int|
                                    0 <= j < ch.len() && (f@[d as int] matches Some(g) ==> (#[trigger] ch@[j]).0.key() == g.key())
                                        && ch@[j].1.found(f@, d + 1, x);
                                assert(ch@[j].0.key() != g.key());
                            }
                        }
                        r
                    },
                    None => {
                        let mut res: Vec<&Record> = Vec::new();
                        let mut i: usize = 0;
                        while i < ch.len()
                            invariant
                                0 <= i <= ch.len(),
                                d < f@.len(),
                                n == f@.len(),
                                f@[d as int] is None,
                                self.wf((f@.len() - d) as nat),
                                *self == RecordTree::Index(*ch),
                                forall|x: Record| res@.contains(&x) <==> exists|j: int| 0 <= j < i && (#[trigger] ch@[j]).1.found(f@, d + 1, x),
                                single_paths(*self),
                                res@.no_duplicates(),
                            decreases ch.len() - i,
                        {
                            assert(ch@[i as int].1.wf((f@.len() - d - 1) as nat));
                            proof {
                                lemma_child_single(*self, i as int);
                            }
                            let mut sub = ch[i].1.find(f, d + 1);
                            let ghost before = res@;
                            let ghost subv = sub@;
                            res.append(&mut sub);
                            assert forall|a: int, b: int| 0 <= a < res@.len() && 0 <= b < res@.len() && a != b implies res@[a] != res@[b] by {
                                if a >= before.len() && b >= before.len() {
                                    assert(res@[a] == subv[a - before.len()] && res@[b] == subv[b - before.len()]);
                                } else if a < before.len() && b < before.len() {
                                } else {
                                    let (p, q) = if a < before.len() { (a, b) } else { (b, a) };
                                    if res@[p] == res@[q] {
                                        let x = *res@[p];
                                        assert(before[p] == res@[p]);
                                        assert(before.contains(&x));
                                        let j = choose|j: int| 0 <= j < i && (#[trigger] ch@[j]).1.found(f@, d + 1, x);
                                        assert(subv[q - before.len()] == res@[q]);
                                        assert(subv.contains(&x));
                                        lemma_found_in_one_child(*self, f@, d as int, j, i as int, x);
                                    }
                                }
                            }
                            assert forall|x: Record| res@.contains(&x) <==> exists|j: int| 0 <= j < i + 1 && (#[trigger] ch@[j]).1.found(f@, d + 1, x) by {
                                if res@.contains(&x) {
                                    let k = choose|k: int| 0 <= k < res@.len() && res@[k] == &x;
                                    if k < before.len() {
                                        assert(before[k] == &x);
                                        assert(before.contains(&x));
                                        let j = choose|j: int| 0 <= j < i && (#[trigger] ch@[j]).1.found(f@, d + 1, x);
                                        assert(0 <= j < i + 1 && ch@[j].1.found(f@, d + 1, x));
                                    } else {
                                        assert(res@[k] == subv[k - before.len()]);
                                        assert(subv.contains(&x));
                                        assert(ch@[i as int].1.found(f@, d + 1, x));
                                    }
                                }
                                if exists|j: int| 0 <= j < i + 1 && (#[trigger] ch@[j]).1.found(f@, d + 1, x) {
                                    let j = choose|j: int| 0 <= j < i + 1 && (#[trigger] ch@[j]).1.found(f@, d + 1, x);
                                    if j < i {
                                        assert(exists|j2: int| 0 <= j2 < i && (#[trigger] ch@[j2]).1.found(f@, d + 1, x));
                                        assert(before.contains(&x));
                                        let k = choose|k: int| 0 <= k < before.len() && before[k] == &x;
                                        assert(res@[k] == &x);
                                    } else {
                                        assert(subv.contains(&x));
                                        let k = choose|k: int| 0 <= k < subv.len() && subv[k] == &x;
                                        assert(res@[before.len() + k] == &x);
                                    }
                                }
                            }
                            i = i + 1;
                        }
                        assert forall|x: Record| res@.contains(&x) <==> self.found(f@, d as int, x) by {
                            if self.found(f@, d as int, x) {
                                let j = choose|j: int|
                                    0 <= j < ch.len() && (f@[d as int] matches Some(g) ==> (#[trigger] ch@[j]).0.key() == g.key())
                                        && ch@[j].1.found(f@, d + 1, x);
                                assert(ch@[j].1.found(f@, d + 1, x));
                            }
                        }
                        res
                    },
                }
            },
        }
    }
}

proof fn lemma_key_path_step(keys: Seq<Field>, d: int)
    requires
        0 <= d < keys.len(),
    ensures
        key_path(keys, d).len() > 0,
        key_path(keys, d)[0] == keys[d].key(),
        key_path(keys, d).drop_first() == key_path(keys, d + 1),
{
    assert(key_path(keys, d).drop_first() =~= key_path(keys, d + 1));
}

proof fn lemma_same_path(p: Seq<Key>, q: Seq<Key>)
    requires
        p.len() > 0,
        q.len() > 0,
        p[0] == q[0],
        p.drop_first() == q.drop_first(),
    ensures
        p == q,
{
    assert(p.drop_first().len() == p.len() - 1);
    assert(q.drop_first().len() == q.len() - 1);
    assert(p =~= q) by {
        assert forall|i: int| 0 <= i < p.len() implies p[i] == q[i] by {
            if i > 0 {
                assert(p[i] == p.drop_first()[i - 1]);
                assert(q[i] == q.drop_first()[i - 1]);
            }
        }
    }
}

impl RecordTree {
    /// Puts `record` at the path of the keys of `keys[d..]`, and hands back the
    /// record that stood there before, if any.
    pub fn put(self, keys: &[Field], d: usize, record: Record) -> (r: (RecordTree, Option<Record>))
        requires
            d <= keys@.len(),
            self.wf((keys@.len() - d) as nat),
        ensures
            r.0.wf((keys@.len() - d) as nat),
            !(r.0 is Void),
            forall|p: Seq<Key>, x: Record|
                #[trigger] r.0.holds(p, x) <==> (if p == key_path(keys@, d as int) {
                    x == record
                } else {
                    self.holds(p, x)
                }),
            match r.1 {
                Some(y) => self.holds(key_path(keys@, d as int), y),
                None => forall|y: Record| !self.holds(key_path(keys@, d as int), y),
            },
        decreases keys@.len() - d,
    {
        let n = keys.len();
        if d == n {
            assert(key_path(keys@, d as int) =~= Seq::<Key>::empty());
            assert forall|p: Seq<Key>| p.len() == 0 implies p == key_path(keys@, d as int) by {
                assert(p =~= key_path(keys@, d as int));
            }
            match self {
                RecordTree::Unit(x) => (RecordTree::Unit(record), Some(x)),
                _ => (RecordTree::Unit(record), None),
            }
        } else {
            let ghost kp = key_path(keys@, d as int);
            proof {
                lemma_key_path_step(keys@, d as int);
            }
            let ghost old_tree = self;
            let mut ch: Vec<(Field, RecordTree)> = match self {
                RecordTree::Index(ch) => ch,
                _ => Vec::new(),
            };
            assert(old_tree is Void ==> ch@.len() == 0);
            assert(forall|p: Seq<Key>, x: Record| #[trigger] old_tree.holds(p, x) <==> (p.len() > 0 && exists|i: int|
                0 <= i < ch@.len() && (#[trigger] ch@[i]).0.key() == p[0] && ch@[i].1.holds(p.drop_first(), x)));
            assert(sorted(ch@));
            let (hit, i) = locate(&ch, &keys[d]);
            if hit {
                let ghost before = ch@;
                let (k, sub) = ch.remove(i);
                assert(sub.wf((keys@.len() - d - 1) as nat));
                let (sub2, prev) = sub.put(keys, d + 1, record);
                ch.insert(i, (k, sub2));
                assert(ch@ == before.update(i as int, (k, sub2)));
                let ghost ii = i as int;
                let t = RecordTree::Index(ch);
                assert forall|p: Seq<Key>, x: Record| #[trigger] t.holds(p, x) <==> (if p == kp {
                    x == record
                } else {
                    old_tree.holds(p, x)
                }) by {
                    if p.len() > 0 {
                        if p[0] == keys@[d as int].key() {
                            if t.holds(p, x) {
                                let j = choose|j: int| 0 <= j < ch@.len() && (#[trigger] ch@[j]).0.key() == p[0] && ch@[j].1.holds(p.drop_first(), x);
                                if j != ii {
                                    lemma_sorted_distinct(before, j, ii);
                                }
                            }
                            if old_tree.holds(p, x) {
                                let j = choose|j: int| 0 <= j < before.len() && (#[trigger] before[j]).0.key() == p[0] && before[j].1.holds(p.drop_first(), x);
                                if j != ii {
                                    lemma_sorted_distinct(before, j, ii);
                                }
                                if p != kp {
                                    assert(p.drop_first() != kp.drop_first()) by {
                                        if p.drop_first() == kp.drop_first() { lemma_same_path(p, kp); }
                                    }
                                }
                                assert(ch@[ii].1.holds(p.drop_first(), x) || p == kp);
                            }
                            if p == kp {
                                if x == record {
                                    assert(ch@[ii].1.holds(p.drop_first(), x));
                                }
                            } else {
                                assert(p.drop_first() != kp.drop_first()) by {
                                    if p.drop_first() == kp.drop_first() { lemma_same_path(p, kp); }
                                }
                            }
                        } else {
                            if t.holds(p, x) {
                                let j = choose|j: int| 0 <= j < ch@.len() && (#[trigger] ch@[j]).0.key() == p[0] && ch@[j].1.holds(p.drop_first(), x);
                                assert(before[j].1.holds(p.drop_first(), x));
                            }
                            if old_tree.holds(p, x) {
                                let j = choose|j: int| 0 <= j < before.len() && (#[trigger] before[j]).0.key() == p[0] && before[j].1.holds(p.drop_first(), x);
                                assert(ch@[j].1.holds(p.drop_first(), x));
                            }
                        }
                    }
                }
                proof {
                    match &prev {
                        Some(y) => {
                            assert(before[ii].1.holds(kp.drop_first(), *y));
                        },
                        None => {
                            assert forall|y: Record| !old_tree.holds(kp, y) by {
                                if old_tree.holds(kp, y) {
                                    let j = choose|j: int| 0 <= j < before.len() && (#[trigger] before[j]).0.key() == kp[0] && before[j].1.holds(kp.drop_first(), y);
                                    if j != ii {
                                        lemma_sorted_distinct(before, j, ii);
                                    }
                                }
                            }
                        },
                    }
                }
                (t, prev)
            } else {
                let ghost before = ch@;
                let (sub2, _) = RecordTree::Void.put(keys, d + 1, record);
                let k = keys[d].copy();
                ch.insert(i, (k, sub2));
                let ghost ii = i as int;
                assert(ch@ == before.insert(ii, (k, sub2)));
                assert(ch@[ii] == (k, sub2));
                assert(forall|j: int| 0 <= j < ii ==> ch@[j] == before[j]);
                assert(forall|j: int| ii < j < ch@.len() ==> ch@[j] == before[j - 1]);
                assert forall|a: int, b: int| 0 <= a < b < ch@.len() implies key_less((#[trigger] ch@[a]).0.key(), (#[trigger] ch@[b]).0.key()) by {
                    if a < ii && b > ii {
                        lemma_key_order(before[a].0.key(), k.key(), before[b - 1].0.key());
                    } else if a < ii && b < ii {
                    } else if a > ii {
                        assert(ch@[a] == before[a - 1] && ch@[b] == before[b - 1]);
                    }
                }
                let t = RecordTree::Index(ch);
                assert forall|p: Seq<Key>, x: Record| #[trigger] t.holds(p, x) <==> (if p == kp {
                    x == record
                } else {
                    old_tree.holds(p, x)
                }) by {
                    if t.holds(p, x) {
                        let j = choose|j: int| 0 <= j < ch@.len() && (#[trigger] ch@[j]).0.key() == p[0] && ch@[j].1.holds(p.drop_first(), x);
                        if j < ii {
                            assert(before[j].1.holds(p.drop_first(), x));
                            assert(p != kp);
                        } else if j > ii {
                            assert(before[j - 1].1.holds(p.drop_first(), x));
                            assert(p != kp);
                        } else {
                            assert(p.drop_first() == kp.drop_first());
                            lemma_same_path(p, kp);
                        }
                    }
                    if old_tree.holds(p, x) {
                        let j = choose|j: int| 0 <= j < before.len() && (#[trigger] before[j]).0.key() == p[0] && before[j].1.holds(p.drop_first(), x);
                        if j < ii {
                            assert(ch@[j].1.holds(p.drop_first(), x));
                        } else {
                            assert(ch@[j + 1] == before[j]);
                            assert(ch@[j + 1].1.holds(p.drop_first(), x));
                        }
                        assert(p != kp);
                    }
                    if p == kp && x == record {
                        assert(ch@[ii].1.holds(p.drop_first(), x));
                    }
                }
                assert forall|y: Record| !old_tree.holds(kp, y) by {
                    if old_tree.holds(kp, y) {
                        let j = choose|j: int| 0 <= j < before.len() && (#[trigger] before[j]).0.key() == kp[0] && before[j].1.holds(kp.drop_first(), y);
                    }
                }
                (t, None)
            }
        }
    }
}

impl RecordTree {
    /// One record reached by a walk that follows filter `f` from position `d`,
    /// if any is.
    pub fn find_one<'a>(&'a self, f: &[Option<Field>], d: usize) -> (r: Option<&'a Record>)
        requires
            d <= f@.len(),
            self.wf((f@.len() - d) as nat),
        ensures
            match r {
                Some(x) => self.found(f@, d as int, *x),
                None => forall|x: Record| !self.found(f@, d as int, x),
            },
        decreases self,
    {
        match self {
            RecordTree::Void => None,
            RecordTree::Unit(x) => Some(x),
            RecordTree::Index(ch) => {
                let n = f.len();
                if let Some(g) = &f[d] {
                    let (hit, i) = locate(ch, g);
                    if !hit {
                        assert forall|x: Record| !self.found(f@, d as int, x) by {
                            if self.found(f@, d as int, x) {
                                let j = choose|j: int|
                                    0 <= j < ch.len() && (f@[d as int] matches Some(g) ==> (#[trigger] ch@[j]).0.key() == g.key())
                                        && ch@[j].1.found(f@, d + 1, x);
                                assert(ch@[j].0.key() != g.key());
                            }
                        }
                        return None;
                    }
                    assert(ch@[i as int].1.wf((f@.len() - d - 1) as nat));
                    let r = ch[i].1.find_one(f, d + 1);
                    proof {
                        match r {
                            Some(x) => {
                                assert(ch@[i as int].1.found(f@, d + 1, *x));
                            },
                            None => {
                                assert forall|x: Record| !self.found(f@, d as int, x) by {
                                    if self.found(f@, d as int, x) {
                                        let j = choose|j: int|
                                            0 <= j < ch.len() && (f@[d as int] matches Some(g) ==> (#[trigger] ch@[j]).0.key() == g.key())
                                                && ch@[j].1.found(f@, d + 1, x);
                                        if j != i {
                                            lemma_sorted_distinct(ch@, j, i as int);
                                        }
                                    }
                                }
                            },
                        }
                    }
                    return r;
                }
                let mut i: usize = 0;
                while i < ch.len()
                    invariant
                        0 <= i <= ch.len(),
                        d < f@.len(),
                        n == f@.len(),
                        self.wf((f@.len() - d) as nat),
                        *self == RecordTree::Index(*ch),
                        f@[d as int] is None,
                        forall|j: int, x: Record| 0 <= j < i ==> !(#[trigger] ch@[j].1.found(f@, d + 1, x)),
                    decreases ch.len() - i,
                {
                    assert(ch@[i as int].1.wf((f@.len() - d - 1) as nat));
                    let r = ch[i].1.find_one(f, d + 1);
                    if r.is_some() {
                        return r;
                    }
                    i = i + 1;
                }
                assert forall|x: Record| !self.found(f@, d as int, x) by {
                    if self.found(f@, d as int, x) {
                        let j = choose|j: int|
                            0 <= j < ch.len() && (f@[d as int] matches Some(g) ==> (#[trigger] ch@[j]).0.key() == g.key())
                                && ch@[j].1.found(f@, d + 1, x);
                    }
                }
                None
            },
        }
    }
}

/// A walk that follows a filter reaches exactly the records whose paths match
/// the filter.
pub proof fn lemma_found_iff_path(t: RecordTree, f: Seq<Option<Field>>, d: int, x: Record)
    requires
        0 <= d <= f.len(),
        t.wf((f.len() - d) as nat),
    ensures
        t.found(f, d, x) <==> exists|p: Seq<Key>| #[trigger] t.holds(p, x) && path_matches(p, f, d),
    decreases t,
{
    match t {
        RecordTree::Void => {},
        RecordTree::Unit(y) => {
            if t.found(f, d, x) {
                assert(t.holds(Seq::empty(), x) && path_matches(Seq::empty(), f, d));
            }
        },
        RecordTree::Index(ch) => {
            if t.found(f, d, x) {
                let j = choose|j: int|
                    0 <= j < ch.len() && (f[d] matches Some(g) ==> (#[trigger] ch@[j]).0.key() == g.key())
                        && ch@[j].1.found(f, d + 1, x);
                lemma_found_iff_path(ch@[j].1, f, d + 1, x);
                let q = choose|q: Seq<Key>| #[trigger] ch@[j].1.holds(q, x) && path_matches(q, f, d + 1);
                let p = seq![ch@[j].0.key()] + q;
                assert(p.drop_first() =~= q);
                assert forall|i: int| 0 <= i < p.len() implies (#[trigger] f[d + i] matches Some(g) ==> p[i] == g.key()) by {
                    if i > 0 {
                        assert(p[i] == q[i - 1]);
                        assert(f[d + 1 + (i - 1)] == f[d + i]);
                    }
                }
                assert(t.holds(p, x));
            }
            if exists|p: Seq<Key>| #[trigger] t.holds(p, x) && path_matches(p, f, d) {
                let p = choose|p: Seq<Key>| #[trigger] t.holds(p, x) && path_matches(p, f, d);
                let j = choose|j: int| 0 <= j < ch.len() && (#[trigger] ch@[j]).0.key() == p[0] && ch@[j].1.holds(p.drop_first(), x);
                lemma_found_iff_path(ch@[j].1, f, d + 1, x);
                let q = p.drop_first();
                assert forall|i: int| 0 <= i < q.len() implies (#[trigger] f[d + 1 + i] matches Some(g) ==> q[i] == g.key()) by {
                    assert(f[d + (i + 1)] == f[d + 1 + i]);
                    assert(q[i] == p[i + 1]);
                }
                assert(ch@[j].1.holds(q, x) && path_matches(q, f, d + 1));
                assert(f[d + 0] == f[d]);
                assert(t.found(f, d, x));
            }
        },
    }
}

} // verus!
