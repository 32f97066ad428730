use vstd::prelude::*;

use crate::error::Error;

verus! {

/// One node of a sensor tree: the text of a file, or the named children of a directory.
pub enum SensorNode {
    Leaf(String),
    Branch(Vec<(String, SensorNode)>),
}

/// The index of the first child named `k`, if any.
pub open spec fn find_key(ch: Seq<(String, SensorNode)>, k: Seq<char>) -> Option<int>
    decreases ch.len(),
{
    if ch.len() == 0 {
        None
    } else if ch[0].0@ == k {
        Some(0)
    } else {
        match find_key(ch.drop_first(), k) {
            Some(i) => Some(i + 1),
            None => None,
        }
    }
}

/// No two children of one directory share a name.
pub open spec fn keys_unique(ch: Seq<(String, SensorNode)>) -> bool {
    forall|i: int, j: int| 0 <= i < j < ch.len() ==> ch[i].0@ != ch[j].0@
}

/// Every directory of the tree has children with distinct names.
pub open spec fn wf(n: SensorNode) -> bool {
    forall|p: Seq<Seq<char>>| distinct_children(#[trigger] node_at(n, p))
}

/// A directory, if that is what `o` is, has children with distinct names.
pub open spec fn distinct_children(o: Option<SensorNode>) -> bool {
    match o {
        Some(SensorNode::Branch(ch)) => keys_unique(ch@),
        _ => true,
    }
}

/// The subtree reached from `n` by following the names in `p`.
pub open spec fn node_at(n: SensorNode, p: Seq<Seq<char>>) -> Option<SensorNode>
    decreases p.len(),
{
    if p.len() == 0 {
        Some(n)
    } else {
        match n {
            SensorNode::Leaf(_) => None,
            SensorNode::Branch(ch) => match find_key(ch@, p[0]) {
                Some(i) => node_at(ch@[i].1, p.drop_first()),
                None => None,
            },
        }
    }
}

/// The subtree at `p` below an optional node (`None` stands for a name not yet present).
pub open spec fn node_in(o: Option<SensorNode>, p: Seq<Seq<char>>) -> Option<SensorNode> {
    match o {
        Some(n) => node_at(n, p),
        None => None,
    }
}

/// A file stands at `p`.
pub open spec fn leaf_in(o: Option<SensorNode>, p: Seq<Seq<char>>) -> bool {
    node_in(o, p) matches Some(SensorNode::Leaf(_))
}

/// A directory stands at `p`.
pub open spec fn branch_in(o: Option<SensorNode>, p: Seq<Seq<char>>) -> bool {
    node_in(o, p) matches Some(SensorNode::Branch(_))
}

/// The text of the file at `p`, if a file stands there.
pub open spec fn leaf_text(n: SensorNode, p: Seq<Seq<char>>) -> Option<Seq<char>> {
    match node_at(n, p) {
        Some(SensorNode::Leaf(s)) => Some(s@),
        _ => None,
    }
}

/// `q` is a prefix of `p` (possibly `p` itself).
pub open spec fn is_prefix(q: Seq<Seq<char>>, p: Seq<Seq<char>>) -> bool {
    q.len() <= p.len() && forall|i: int| 0 <= i < q.len() ==> q[i] == p[i]
}

/// `q` is a prefix of `p` and shorter than it.
pub open spec fn is_strict_prefix(q: Seq<Seq<char>>, p: Seq<Seq<char>>) -> bool {
    is_prefix(q, p) && q.len() < p.len()
}

/// A file cannot be put at `p`: some directory on the way is a file, or `p` is a directory.
pub open spec fn blocked(o: Option<SensorNode>, p: Seq<Seq<char>>) -> bool {
    (exists|j: int| 0 <= j < p.len() && #[trigger] leaf_in(o, p.take(j))) || branch_in(o, p)
}

/// The names of a path, as character sequences.
pub open spec fn names(path: Seq<String>) -> Seq<Seq<char>> {
    path.map_values(|s: String| s@)
}

proof fn lemma_find_key(ch: Seq<(String, SensorNode)>, k: Seq<char>)
    ensures
        match find_key(ch, k) {
            Some(i) => 0 <= i < ch.len() && ch[i].0@ == k && forall|j: int|
                0 <= j < i ==> ch[j].0@ != k,
            None => forall|j: int| 0 <= j < ch.len() ==> ch[j].0@ != k,
        },
    decreases ch.len(),
{
    if ch.len() > 0 {
        lemma_find_key(ch.drop_first(), k);
        if ch[0].0@ != k {
            assert forall|j: int| 1 <= j < ch.len() implies ch[j].0@ == ch.drop_first()[j - 1].0@ by {}
        }
    }
}

/// Looks up the child named `k`.
fn find_child(ch: &Vec<(String, SensorNode)>, k: &String) -> (r: Option<usize>)
    ensures
        r matches Some(i) ==> find_key(ch@, k@) == Some(i as int),
        r is None ==> find_key(ch@, k@) is None,
{
    proof { lemma_find_key(ch@, k@); }
    let ghost found = find_key(ch@, k@);
    let mut i: usize = 0;
    while i < ch.len()
        invariant
            i <= ch.len(),
            forall|j: int| 0 <= j < i ==> ch@[j].0@ != k@,
            found == find_key(ch@, k@),
            match found {
                Some(f) => 0 <= f < ch.len() && ch@[f].0@ == k@ && forall|j: int|
                    0 <= j < f ==> ch@[j].0@ != k@,
                None => forall|j: int| 0 <= j < ch.len() ==> ch@[j].0@ != k@,
            },
        decreases ch.len() - i,
    {
        if ch[i].0 == *k {
            return Some(i);
        }
        i += 1;
    }
    None
}

proof fn lemma_find_key_same_names(a: Seq<(String, SensorNode)>, b: Seq<(String, SensorNode)>, k: Seq<char>)
    requires
        a.len() == b.len(),
        forall|j: int| 0 <= j < a.len() ==> a[j].0@ == b[j].0@,
    ensures
        find_key(a, k) == find_key(b, k),
    decreases a.len(),
{
    if a.len() > 0 {
        assert forall|j: int| 0 <= j < a.len() - 1 implies a.drop_first()[j].0@
            == b.drop_first()[j].0@ by {
            assert(a.drop_first()[j] == a[j + 1]);
            assert(b.drop_first()[j] == b[j + 1]);
        }
        lemma_find_key_same_names(a.drop_first(), b.drop_first(), k);
    }
}

proof fn lemma_find_key_push(ch: Seq<(String, SensorNode)>, e: (String, SensorNode), k: Seq<char>)
    ensures
        find_key(ch.push(e), k) == (if find_key(ch, k) is Some {
            find_key(ch, k)
        } else if e.0@ == k {
            Some(ch.len() as int)
        } else {
            None
        }),
    decreases ch.len(),
{
    if ch.len() > 0 {
        assert(ch.push(e).drop_first() =~= ch.drop_first().push(e));
        assert(ch.push(e)[0] == ch[0]);
        lemma_find_key_push(ch.drop_first(), e, k);
        assert(find_key(ch, k) == (if ch[0].0@ == k {
            Some(0int)
        } else {
            match find_key(ch.drop_first(), k) {
                Some(i) => Some(i + 1),
                None => None,
            }
        }));
        assert(find_key(ch.push(e), k) == (if ch[0].0@ == k {
            Some(0int)
        } else {
            match find_key(ch.drop_first().push(e), k) {
                Some(i) => Some(i + 1),
                None => None,
            }
        }));
    } else {
        assert(ch.push(e).drop_first() =~= Seq::<(String, SensorNode)>::empty());
        assert(ch.push(e)[0] == e);
        assert(find_key(ch.push(e).drop_first(), k) is None);
        assert(find_key(ch, k) is None);
    }
}

proof fn lemma_wf_child(ch: Vec<(String, SensorNode)>, i: int)
    requires
        wf(SensorNode::Branch(ch)),
        0 <= i < ch.len(),
    ensures
        keys_unique(ch@),
        find_key(ch@, ch@[i].0@) == Some(i),
        wf(ch@[i].1),
{
    let n = SensorNode::Branch(ch);
    assert(node_at(n, Seq::empty()) == Some(n));
    lemma_find_key(ch@, ch@[i].0@);
    assert forall|q: Seq<Seq<char>>| distinct_children(#[trigger] node_at(ch@[i].1, q)) by {
        let pq = seq![ch@[i].0@].add(q);
        assert(pq.drop_first() =~= q);
        assert(node_at(n, pq) == node_at(ch@[i].1, q));
    }
}

/// Puts a file with text `content` at the names `path[depth..]` below `o`, creating the
/// directories on the way. Fails when a name on the way is a file or the last name is a
/// directory.
fn insert_at(o: Option<SensorNode>, path: &Vec<String>, depth: usize, content: String) -> (r:
    Result<SensorNode, Error>)
    requires
        depth <= path.len(),
        o matches Some(n) ==> wf(n),
    ensures
        ({
            let p = names(path@).skip(depth as int);
            &&& (r is Ok <==> !blocked(o, p))
            &&& (r matches Err(e) ==> e == Error::TreeConflict)
            &&& (r matches Ok(t) ==> {
                &&& wf(t)
                &&& node_at(t, p) == Some(SensorNode::Leaf(content))
                &&& forall|q: Seq<Seq<char>>| is_strict_prefix(q, p) ==> #[trigger] branch_in(Some(t), q)
                &&& forall|q: Seq<Seq<char>>| !is_prefix(q, p) ==> #[trigger] node_at(t, q) == node_in(o, q)
            })
        }),
    decreases path.len() - depth,
{
    let ghost p = names(path@).skip(depth as int);
    if depth == path.len() {
        assert(p.len() == 0);
        return match o {
            Some(SensorNode::Branch(ch)) => Err(Error::TreeConflict),
            _ => Ok(SensorNode::Leaf(content)),
        };
    }
    let ghost pr = names(path@).skip(depth + 1);
    assert(p.drop_first() =~= pr);
    assert(p[0] == path@[depth as int]@);
    let mut ch = match o {
        Some(SensorNode::Leaf(s)) => {
            assert(leaf_in(o, p.take(0)));
            return Err(Error::TreeConflict);
        },
        Some(SensorNode::Branch(ch)) => {
            assert(node_at(SensorNode::Branch(ch), Seq::empty()) == Some(SensorNode::Branch(ch)));
            ch
        },
        None => Vec::new(),
    };
    assert(o matches Some(n) ==> n == SensorNode::Branch(ch));
    let ghost ch0 = ch@;
    let ghost n0 = SensorNode::Branch(ch);
    assert(o matches Some(n) ==> n == n0 && wf(n0));
    let key = &path[depth];
    proof { lemma_find_key(ch0, key@); }
    match find_child(&ch, key) {
        Some(i) => {
            proof { lemma_wf_child(ch, i as int); }
            let (k, c) = ch.remove(i);
            let ghost c0 = c;
            assert(c0 == ch0[i as int].1);
            let ghost oc = Some(c0);
            let res = insert_at(Some(c), path, depth + 1, content);
            // a file on the way, or a directory at the end, below this child
            assert forall|j: int| 1 <= j < p.len() implies #[trigger] leaf_in(o, p.take(j))
                == leaf_in(oc, pr.take(j - 1)) by {
                assert(p.take(j).drop_first() =~= pr.take(j - 1));
            }
            assert(!leaf_in(o, p.take(0)));
            assert(blocked(o, p) == blocked(oc, pr)) by {
                if blocked(oc, pr) {
                    if branch_in(oc, pr) {
                    } else {
                        let j = choose|j: int| 0 <= j < pr.len() && #[trigger] leaf_in(oc, pr.take(j));
                        assert(leaf_in(o, p.take(j + 1)));
                    }
                }
            }
            match res {
                Err(e) => Err(e),
                Ok(c2) => {
                    ch.insert(i, (k, c2));
                    let t = SensorNode::Branch(ch);
                    assert(ch@ =~= ch0.update(i as int, (k, c2)));
                    assert forall|x: Seq<char>| find_key(ch@, x) == find_key(ch0, x) by {
                        lemma_find_key_same_names(ch@, ch0, x);
                    }
                    assert(wf(t)) by {
                        assert forall|q: Seq<Seq<char>>| distinct_children(#[trigger] node_at(t, q)) by {
                            if q.len() == 0 {
                                assert(forall|m: int| 0 <= m < ch@.len() ==> ch@[m].0@ == ch0[m].0@);
                                assert(keys_unique(ch@));
                            } else {
                                lemma_find_key(ch0, q[0]);
                                assert(find_key(ch@, q[0]) == find_key(ch0, q[0]));
                                if let Some(j) = find_key(ch0, q[0]) {
                                    if j != i {
                                        assert(node_at(t, q) == node_at(n0, q));
                                    } else {
                                        assert(node_at(t, q) == node_at(c2, q.drop_first()));
                                        assert(distinct_children(node_at(c2, q.drop_first())));
                                    }
                                }
                            }
                        }
                    }
                    assert(node_at(t, p) == node_at(c2, pr));
                    assert forall|q: Seq<Seq<char>>| is_strict_prefix(q, p) implies #[trigger] branch_in(Some(t), q) by {
                        if q.len() > 0 {
                            assert(is_strict_prefix(q.drop_first(), pr));
                            assert(branch_in(Some(c2), q.drop_first()));
                        }
                    }
                    assert forall|q: Seq<Seq<char>>| !is_prefix(q, p) implies #[trigger] node_at(t, q) == node_in(o, q) by {
                        assert(q.len() > 0);
                        if q[0] == p[0] {
                            if is_prefix(q.drop_first(), pr) {
                                assert forall|m: int| 0 <= m < q.len() implies q[m] == p[m] by {
                                    if m > 0 {
                                        assert(q[m] == q.drop_first()[m - 1]);
                                    }
                                }
                            }
                            assert(node_at(c2, q.drop_first()) == node_in(oc, q.drop_first()));
                        } else {
                            lemma_find_key(ch0, q[0]);
                        }
                    }
                    Ok(t)
                },
            }
        },
        None => {
            let res = insert_at(None, path, depth + 1, content);
            assert(!blocked(o, p)) by {
                assert forall|j: int| 0 <= j < p.len() implies !#[trigger] leaf_in(o, p.take(j)) by {
                    if j > 0 {
                        assert(p.take(j)[0] == p[0]);
                    }
                }
            }
            assert(!blocked(None, pr));
            match res {
                Err(e) => Err(e),
                Ok(c2) => {
                    let entry = (key.clone(), c2);
                    let ghost e = entry;
                    ch.push(entry);
                    let t = SensorNode::Branch(ch);
                    assert(ch@ =~= ch0.push(e));
                    assert forall|x: Seq<char>| #[trigger] find_key(ch@, x) == (if find_key(ch0, x) is Some {
                        find_key(ch0, x)
                    } else if key@ == x {
                        Some(ch0.len() as int)
                    } else {
                        None
                    }) by {
                        lemma_find_key_push(ch0, e, x);
                    }
                    assert(wf(t)) by {
                        assert forall|q: Seq<Seq<char>>| distinct_children(#[trigger] node_at(t, q)) by {
                            if q.len() == 0 {
                                if o is Some {
                                    assert(node_at(n0, q) == Some(n0));
                                }
                                assert(ch@[ch0.len() as int] == e);
                                assert(forall|m: int| 0 <= m < ch0.len() ==> ch@[m] == ch0[m]);
                                assert(keys_unique(ch@));
                            } else {
                                lemma_find_key(ch0, q[0]);
                                if let Some(j) = find_key(ch0, q[0]) {
                                    assert(node_at(t, q) == node_at(n0, q));
                                } else if q[0] == key@ {
                                    assert(node_at(t, q) == node_at(c2, q.drop_first()));
                                    assert(distinct_children(node_at(c2, q.drop_first())));
                                }
                            }
                        }
                    }
                    assert(node_at(t, p) == node_at(c2, pr));
                    assert forall|q: Seq<Seq<char>>| is_strict_prefix(q, p) implies #[trigger] branch_in(Some(t), q) by {
                        if q.len() > 0 {
                            assert(is_strict_prefix(q.drop_first(), pr));
                            assert(branch_in(Some(c2), q.drop_first()));
                        }
                    }
                    assert forall|q: Seq<Seq<char>>| !is_prefix(q, p) implies #[trigger] node_at(t, q) == node_in(o, q) by {
                        assert(q.len() > 0);
                        lemma_find_key(ch0, q[0]);
                        if q[0] == p[0] {
                            if is_prefix(q.drop_first(), pr) {
                                assert forall|m: int| 0 <= m < q.len() implies q[m] == p[m] by {
                                    if m > 0 {
                                        assert(q[m] == q.drop_first()[m - 1]);
                                    }
                                }
                            }
                            assert(node_at(c2, q.drop_first()) == node_in(None, q.drop_first()));
                        }
                    }
                    Ok(t)
                },
            }
        },
    }
}

/// The names of the path of entry `i` of a walk.
pub open spec fn entry_path(e: Seq<(Vec<String>, String)>, i: int) -> Seq<Seq<char>> {
    names(e[i].0@)
}

/// The text of the last of the first `k` entries whose path is `q`.
pub open spec fn latest(e: Seq<(Vec<String>, String)>, k: int, q: Seq<Seq<char>>) -> Option<Seq<char>>
    decreases k,
{
    if k <= 0 {
        None
    } else if entry_path(e, k - 1) == q {
        Some(e[k - 1].1@)
    } else {
        latest(e, k - 1, q)
    }
}

/// Among the first `k` entries, no path is empty and none lies inside another.
pub open spec fn consistent_upto(e: Seq<(Vec<String>, String)>, k: int) -> bool {
    &&& forall|i: int| 0 <= i < k ==> #[trigger] entry_path(e, i).len() > 0
    &&& forall|i: int, j: int|
        0 <= i < k && 0 <= j < k ==> !is_strict_prefix(#[trigger] entry_path(e, i), #[trigger] entry_path(e, j))
}

/// The paths of a walk fit one tree: no path is empty and none lies inside another.
pub open spec fn consistent(e: Seq<(Vec<String>, String)>) -> bool {
    consistent_upto(e, e.len() as int)
}

/// `q` names a directory on the way to one of the first `k` entries.
pub open spec fn on_the_way(e: Seq<(Vec<String>, String)>, k: int, q: Seq<Seq<char>>) -> bool {
    exists|i: int| 0 <= i < k && is_strict_prefix(q, #[trigger] entry_path(e, i))
}

/// `t` is the tree of the first `k` entries: the files are exactly the entries (the last
/// text given for a path wins) and the directories exactly the root and those on the
/// way to a file.
pub open spec fn tree_of(t: SensorNode, e: Seq<(Vec<String>, String)>, k: int) -> bool {
    &&& wf(t)
    &&& t is Branch
    &&& forall|q: Seq<Seq<char>>| #[trigger] leaf_text(t, q) == latest(e, k, q)
    &&& forall|q: Seq<Seq<char>>| #[trigger] branch_in(Some(t), q) <==> (q.len() == 0 || on_the_way(e, k, q))
}

proof fn lemma_latest(e: Seq<(Vec<String>, String)>, k: int, q: Seq<Seq<char>>)
    requires
        0 <= k <= e.len(),
    ensures
        latest(e, k, q) is Some <==> exists|i: int| 0 <= i < k && entry_path(e, i) == q,
    decreases k,
{
    if k > 0 {
        lemma_latest(e, k - 1, q);
    }
}

/// Puts a file with text `content` at `path` in `tree`, creating the directories on the way.
pub fn insert_sensor(tree: SensorNode, path: &Vec<String>, content: String) -> (r: Result<SensorNode, Error>)
    requires
        wf(tree),
    ensures
        ({
            let p = names(path@);
            &&& (r is Ok <==> !blocked(Some(tree), p))
            &&& (r matches Err(e) ==> e == Error::TreeConflict)
            &&& (r matches Ok(t) ==> {
                &&& wf(t)
                &&& node_at(t, p) == Some(SensorNode::Leaf(content))
                &&& forall|q: Seq<Seq<char>>| is_strict_prefix(q, p) ==> #[trigger] branch_in(Some(t), q)
                &&& forall|q: Seq<Seq<char>>| !is_prefix(q, p) ==> #[trigger] node_at(t, q) == node_at(tree, q)
            })
        }),
{
    assert(names(path@).skip(0) =~= names(path@));
    insert_at(Some(tree), path, 0, content)
}

/// Folds the files of one walk (path names and text) into one tree.
pub fn build_tree(entries: &Vec<(Vec<String>, String)>) -> (r: Result<SensorNode, Error>)
    ensures
        r is Ok <==> consistent(entries@),
        r matches Err(e) ==> e == Error::TreeConflict,
        r matches Ok(t) ==> tree_of(t, entries@, entries@.len() as int),
{
    let ghost e = entries@;
    let mut tree = SensorNode::Branch(Vec::new());
    assert(tree_of(tree, e, 0)) by {
        assert forall|q: Seq<Seq<char>>| q.len() > 0 implies node_at(tree, q) is None by {}
        assert(node_at(tree, Seq::empty()) == Some(tree));
        assert forall|q: Seq<Seq<char>>| distinct_children(#[trigger] node_at(tree, q)) by {}
    }
    let mut k: usize = 0;
    while k < entries.len()
        invariant
            e == entries@,
            k <= e.len(),
            consistent_upto(e, k as int),
            tree_of(tree, e, k as int),
        decreases e.len() - k,
    {
        let ghost p = entry_path(e, k as int);
        let ghost t0 = tree;
        assert(entries@[k as int] == entries[k as int]);
        let content = entries[k].1.clone();
        // an earlier file lies above this one or below it
        assert(blocked(Some(t0), p) <==> !consistent_upto(e, k + 1)) by {
            if blocked(Some(t0), p) {
                if branch_in(Some(t0), p) {
                } else {
                    let j = choose|j: int| 0 <= j < p.len() && #[trigger] leaf_in(Some(t0), p.take(j));
                    assert(leaf_text(t0, p.take(j)) is Some);
                    lemma_latest(e, k as int, p.take(j));
                    let i = choose|i: int| 0 <= i < k && entry_path(e, i) == p.take(j);
                    assert(is_strict_prefix(entry_path(e, i), entry_path(e, k as int)));
                }
            }
            if !consistent_upto(e, k + 1) {
                if p.len() == 0 {
                    assert(branch_in(Some(t0), p));
                } else {
                    let (i, j) = choose|i: int, j: int|
                        0 <= i < k + 1 && 0 <= j < k + 1 && is_strict_prefix(#[trigger] entry_path(e, i), #[trigger] entry_path(e, j));
                    if j == k {
                        let pi = entry_path(e, i);
                        assert(p.take(pi.len() as int) =~= pi);
                        assert(i < k);
                        assert(entry_path(e, i) == pi);
                        lemma_latest(e, k as int, pi);
                        assert(leaf_text(t0, pi) is Some);
                        assert(leaf_in(Some(t0), p.take(pi.len() as int)));
                    } else {
                        assert(on_the_way(e, k as int, p));
                        assert(branch_in(Some(t0), p));
                    }
                }
            }
        }
        let res = insert_sensor(tree, &entries[k].0, content);
        match res {
            Err(err) => {
                return Err(err);
            },
            Ok(t) => {
                proof {
                    assert forall|q: Seq<Seq<char>>| #[trigger] leaf_text(t, q) == latest(e, k + 1, q) by {
                        assert(leaf_text(t0, q) == latest(e, k as int, q));
                        if is_strict_prefix(q, p) {
                            assert(branch_in(Some(t), q));
                            assert(q != p);
                            lemma_latest(e, k as int, q);
                            if latest(e, k as int, q) is Some {
                                let i = choose|i: int| 0 <= i < k && entry_path(e, i) == q;
                                assert(is_strict_prefix(entry_path(e, i), entry_path(e, k as int)));
                            }
                        } else if !is_prefix(q, p) {
                            assert(node_at(t, q) == node_at(t0, q));
                            assert(q != p);
                        } else {
                            assert(q =~= p);
                            assert(node_at(t, p) == Some(SensorNode::Leaf(content)));
                            assert(content@ == e[k as int].1@);
                        }
                    }
                    assert forall|q: Seq<Seq<char>>| #[trigger] branch_in(Some(t), q) <==> (q.len() == 0 || on_the_way(e, k + 1, q)) by {
                        if is_strict_prefix(q, p) {
                            assert(branch_in(Some(t), q));
                            assert(on_the_way(e, k + 1, q));
                        } else if !is_prefix(q, p) {
                            assert(node_at(t, q) == node_at(t0, q));
                            assert(branch_in(Some(t0), q) == branch_in(Some(t), q));
                            if on_the_way(e, k + 1, q) {
                                let i = choose|i: int| 0 <= i < k + 1 && is_strict_prefix(q, #[trigger] entry_path(e, i));
                                assert(i != k);
                                assert(on_the_way(e, k as int, q));
                            }
                            if on_the_way(e, k as int, q) {
                                let i = choose|i: int| 0 <= i < k && is_strict_prefix(q, #[trigger] entry_path(e, i));
                                assert(on_the_way(e, k + 1, q));
                            }
                        } else {
                            assert(q =~= p);
                            assert(!branch_in(Some(t), q));
                            if on_the_way(e, k + 1, q) {
                                let i = choose|i: int| 0 <= i < k + 1 && is_strict_prefix(q, #[trigger] entry_path(e, i));
                                assert(is_strict_prefix(entry_path(e, k as int), entry_path(e, i)));
                            }
                        }
                    }
                    assert(t is Branch) by {
                        assert(is_strict_prefix(Seq::<Seq<char>>::empty(), p));
                        assert(branch_in(Some(t), Seq::<Seq<char>>::empty()));
                    }
                }
                tree = t;
            },
        }
        k += 1;
    }
    Ok(tree)
}

/// No two entries of a walk share a path: each file is met once.
pub open spec fn paths_unique(e: Seq<(Vec<String>, String)>) -> bool {
    forall|i: int, j: int| 0 <= i < j < e.len() ==> entry_path(e, i) != entry_path(e, j)
}

/// The files of a walk, as pairs of path names and text.
pub open spec fn files_of(e: Seq<(Vec<String>, String)>) -> Set<(Seq<Seq<char>>, Seq<char>)> {
    Set::new(|f: (Seq<Seq<char>>, Seq<char>)| exists|i: int| 0 <= i < e.len() && f == (#[trigger] entry_path(e, i), e[i].1@))
}

proof fn lemma_latest_unique(e: Seq<(Vec<String>, String)>, k: int, q: Seq<Seq<char>>, c: Seq<char>)
    requires
        0 <= k <= e.len(),
        paths_unique(e),
    ensures
        latest(e, k, q) == Some(c) <==> exists|i: int| 0 <= i < k && entry_path(e, i) == q && e[i].1@ == c,
    decreases k,
{
    if k > 0 {
        lemma_latest_unique(e, k - 1, q, c);
        if entry_path(e, k - 1) == q {
            assert forall|i: int| 0 <= i < k - 1 implies entry_path(e, i) != q by {}
        }
    }
}

/// A tree built from a walk that meets each file once holds exactly the walked files:
/// reading the names and texts back out of it gives the files of the walk.
pub proof fn lemma_tree_lists_the_files(t: SensorNode, e: Seq<(Vec<String>, String)>)
    requires
        tree_of(t, e, e.len() as int),
        paths_unique(e),
    ensures
        forall|q: Seq<Seq<char>>, c: Seq<char>| leaf_text(t, q) == Some(c) <==> #[trigger] files_of(e).contains((q, c)),
{
    assert forall|q: Seq<Seq<char>>, c: Seq<char>| leaf_text(t, q) == Some(c) <==> #[trigger] files_of(e).contains((q, c)) by {
        lemma_latest_unique(e, e.len() as int, q, c);
        if files_of(e).contains((q, c)) {
            let i = choose|i: int| 0 <= i < e.len() && (q, c) == (#[trigger] entry_path(e, i), e[i].1@);
            assert(entry_path(e, i) == q && e[i].1@ == c);
        }
    }
}

/// The order of a walk does not matter: two walks that meet the same files, each once,
/// build trees with the same files, texts and directories.
pub proof fn lemma_walk_order_irrelevant(
    t1: SensorNode,
    e1: Seq<(Vec<String>, String)>,
    t2: SensorNode,
    e2: Seq<(Vec<String>, String)>,
)
    requires
        tree_of(t1, e1, e1.len() as int),
        tree_of(t2, e2, e2.len() as int),
        paths_unique(e1),
        paths_unique(e2),
        files_of(e1) == files_of(e2),
    ensures
        forall|q: Seq<Seq<char>>| #[trigger] leaf_text(t1, q) == leaf_text(t2, q),
        forall|q: Seq<Seq<char>>| #[trigger] branch_in(Some(t1), q) == branch_in(Some(t2), q),
{
    lemma_tree_lists_the_files(t1, e1);
    lemma_tree_lists_the_files(t2, e2);
    assert forall|q: Seq<Seq<char>>| #[trigger] leaf_text(t1, q) == leaf_text(t2, q) by {
        if let Some(c) = leaf_text(t1, q) {
            assert(files_of(e2).contains((q, c)));
        } else if let Some(c) = leaf_text(t2, q) {
            assert(files_of(e1).contains((q, c)));
        }
    }
    assert forall|q: Seq<Seq<char>>| #[trigger] branch_in(Some(t1), q) == branch_in(Some(t2), q) by {
        if on_the_way(e1, e1.len() as int, q) {
            let i = choose|i: int| 0 <= i < e1.len() && is_strict_prefix(q, #[trigger] entry_path(e1, i));
            assert(files_of(e1).contains((entry_path(e1, i), e1[i].1@)));
            assert(files_of(e2).contains((entry_path(e1, i), e1[i].1@)));
            let j = choose|j: int| 0 <= j < e2.len() && (entry_path(e1, i), e1[i].1@) == (#[trigger] entry_path(e2, j), e2[j].1@);
            assert(on_the_way(e2, e2.len() as int, q));
        }
        if on_the_way(e2, e2.len() as int, q) {
            let i = choose|i: int| 0 <= i < e2.len() && is_strict_prefix(q, #[trigger] entry_path(e2, i));
            assert(files_of(e2).contains((entry_path(e2, i), e2[i].1@)));
            assert(files_of(e1).contains((entry_path(e2, i), e2[i].1@)));
            let j = choose|j: int| 0 <= j < e1.len() && (entry_path(e2, i), e2[i].1@) == (#[trigger] entry_path(e1, j), e1[j].1@);
            assert(on_the_way(e1, e1.len() as int, q));
        }
    }
}

impl SensorNode {
    /// The subtree at the names `path`, if there is one.
    pub fn lookup(&self, path: &Vec<String>) -> (r: Option<&SensorNode>)
        ensures
            match node_at(*self, names(path@)) {
                Some(n) => r == Some(&n),
                None => r is None,
            },
    {
        let ghost p = names(path@);
        let mut cur: &SensorNode = self;
        let mut i: usize = 0;
        assert(p.skip(0) =~= p);
        while i < path.len()
            invariant
                p == names(path@),
                i <= path.len(),
                node_at(*self, p) == node_at(*cur, p.skip(i as int)),
            decreases path.len() - i,
        {
            assert(p.skip(i as int).drop_first() =~= p.skip(i + 1));
            assert(p.skip(i as int)[0] == path@[i as int]@);
            match cur {
                SensorNode::Leaf(_) => {
                    return None;
                },
                SensorNode::Branch(ch) => {
                    proof { lemma_find_key(ch@, path@[i as int]@); }
                    match find_child(ch, &path[i]) {
                        Some(j) => {
                            cur = &ch[j].1;
                        },
                        None => {
                            return None;
                        },
                    }
                },
            }
            i += 1;
        }
        assert(p.skip(path.len() as int) =~= Seq::<Seq<char>>::empty());
        Some(cur)
    }
}

} // verus!
