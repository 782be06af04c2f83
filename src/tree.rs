//! Directory trees as plain values, and the walks the staging area needs:
//! enumerating the files under a root, planning a recursive copy, and
//! planning the removal of a directory's children.
use vstd::prelude::*;
use crate::text::str_eq;

verus! {

/// Name of the marker file that signals a staging directory in use.
pub const LOCK_NAME: &'static str = "folder.lock";

/// The marker's name as a sequence of characters.
pub open spec fn lock_name() -> Seq<char> {
    LOCK_NAME@
}

/// A snapshot of a filesystem object: a regular file, or a directory with its entries.
pub enum Node {
    File,
    Dir(Vec<Entry>),
}

/// One named entry of a directory.
pub struct Entry {
    pub name: String,
    pub node: Node,
}

/// No two entries of a directory share a name.
pub open spec fn names_unique(es: Seq<Entry>) -> bool {
    forall|i: int, j: int|
        0 <= i < es.len() && 0 <= j < es.len() && i != j ==> #[trigger] es[i].name@ != #[trigger] es[j].name@
}

/// Every directory in the tree has entries with distinct names, as on disk.
pub open spec fn tree_wf(n: Node) -> bool
    decreases n,
{
    match n {
        Node::File => true,
        Node::Dir(es) => names_unique(es@) && forall|i: int|
            #![trigger es@[i]]
            0 <= i < es@.len() ==> tree_wf(es@[i].node),
    }
}

proof fn lemma_wf_child(es: Vec<Entry>, i: int)
    requires
        tree_wf(Node::Dir(es)),
        0 <= i < es@.len(),
    ensures
        tree_wf(es@[i].node),
        names_unique(es@),
{
    assert(es@[i] == es@[i]);
}

/// A relative path, as the sequence of its components.
pub open spec fn path_view(p: Vec<String>) -> Seq<Seq<char>> {
    p@.map_values(|s: String| s@)
}

/// A list of relative paths.
pub open spec fn paths_view(ps: Vec<Vec<String>>) -> Seq<Seq<Seq<char>>> {
    ps@.map_values(|p: Vec<String>| path_view(p))
}

/// `p` leads from `n` to a regular file (the empty path names `n` itself).
pub open spec fn has_file(n: Node, p: Seq<Seq<char>>) -> bool
    decreases p.len(),
{
    if p.len() == 0 {
        n is File
    } else {
        match n {
            Node::File => false,
            Node::Dir(es) => exists|i: int|
                #![trigger es@[i]]
                0 <= i < es@.len() && es@[i].name@ == p[0] && has_file(es@[i].node, p.drop_first()),
        }
    }
}

/// `p` is a file that enumeration reports: a file strictly below `root`
/// whose base name is not the marker's.
pub open spec fn is_collected(root: Node, p: Seq<Seq<char>>) -> bool {
    &&& p.len() > 0
    &&& has_file(root, p)
    &&& p.last() != lock_name()
}

/// Builds the path `name` followed by the components of `q`.
fn prefixed(name: &String, q: &Vec<String>) -> (r: Vec<String>)
    ensures
        path_view(r) == seq![name@] + path_view(*q),
{
    let mut r: Vec<String> = Vec::new();
    r.push(name.clone());
    let mut k: usize = 0;
    while k < q.len()
        invariant
            k <= q.len(),
            path_view(r) == seq![name@] + path_view(*q).take(k as int),
        decreases q.len() - k,
    {
        let ghost before = r@;
        let c = q[k].clone();
        r.push(c);
        assert(r@ == before.push(c));
        assert(path_view(r) =~= before.map_values(|s: String| s@).push(c@));
        assert(path_view(*q).take(k + 1) =~= path_view(*q).take(k as int).push(c@));
        assert(path_view(r) =~= seq![name@] + path_view(*q).take(k + 1));
        k = k + 1;
    }
    assert(path_view(*q).take(k as int) =~= path_view(*q));
    r
}

/// Appends to `out` every path of `sub` with `name` put in front of it.
fn prepend_all(name: &String, sub: &Vec<Vec<String>>, out: &mut Vec<Vec<String>>)
    ensures
        paths_view(*final(out)) == paths_view(*old(out)) + paths_view(*sub).map_values(
            |q: Seq<Seq<char>>| seq![name@] + q,
        ),
{
    let ghost start = paths_view(*out);
    let mut k: usize = 0;
    while k < sub.len()
        invariant
            k <= sub.len(),
            paths_view(*out) == start + paths_view(*sub).map_values(
                |q: Seq<Seq<char>>| seq![name@] + q,
            ).take(k as int),
        decreases sub.len() - k,
    {
        let p = prefixed(name, &sub[k]);
        let ghost before = out@;
        out.push(p);
        assert(paths_view(*out) =~= before.map_values(|p: Vec<String>| path_view(p)).push(path_view(p)));
        assert(paths_view(*sub).map_values(|q: Seq<Seq<char>>| seq![name@] + q).take(k + 1)
            =~= paths_view(*sub).map_values(|q: Seq<Seq<char>>| seq![name@] + q).take(k as int).push(path_view(p)));
        assert(paths_view(*out) =~= start + paths_view(*sub).map_values(
            |q: Seq<Seq<char>>| seq![name@] + q,
        ).take(k + 1));
        k = k + 1;
    }
    assert(paths_view(*sub).map_values(|q: Seq<Seq<char>>| seq![name@] + q).take(k as int)
        =~= paths_view(*sub).map_values(|q: Seq<Seq<char>>| seq![name@] + q));
}

/// The files that enumeration reports, in the order it reports them: the
/// entries of each directory in their order, a subdirectory's files in
/// place of the subdirectory.
pub open spec fn listing(n: Node) -> Seq<Seq<Seq<char>>>
    decreases n, 0int,
{
    match n {
        Node::File => Seq::empty(),
        Node::Dir(es) => listing_entries(es@, es@.len() as int),
    }
}

/// What enumeration reports for the first `k` entries of a directory.
pub open spec fn listing_entries(es: Seq<Entry>, k: int) -> Seq<Seq<Seq<char>>>
    decreases es, k,
{
    if k <= 0 || k > es.len() {
        Seq::empty()
    } else {
        let prev = listing_entries(es, k - 1);
        let e = es[k - 1];
        match e.node {
            Node::File => if e.name@ != lock_name() {
                prev.push(seq![e.name@])
            } else {
                prev
            },
            Node::Dir(_) => prev + listing(e.node).map_values(|q: Seq<Seq<char>>| seq![e.name@] + q),
        }
    }
}

/// `p` is reported by enumerating the first `i` entries of a directory.
pub open spec fn collected_below(es: Seq<Entry>, i: int, p: Seq<Seq<char>>) -> bool {
    &&& p.len() > 0
    &&& p.last() != lock_name()
    &&& exists|j: int|
        #![trigger es[j]]
        0 <= j < i && es[j].name@ == p[0] && has_file(es[j].node, p.drop_first())
}

proof fn lemma_no_dup_concat<T>(a: Seq<T>, b: Seq<T>)
    requires
        a.no_duplicates(),
        b.no_duplicates(),
        forall|x: T| a.contains(x) ==> !b.contains(x),
    ensures
        (a + b).no_duplicates(),
{
    let c = a + b;
    assert forall|i: int, j: int| 0 <= i < c.len() && 0 <= j < c.len() && i != j implies c[i] != c[j] by {
        if i < a.len() && j >= a.len() {
            assert(a.contains(c[i]));
            assert(b.contains(c[j]));
        } else if j < a.len() && i >= a.len() {
            assert(a.contains(c[j]));
            assert(b.contains(c[i]));
        } else if i >= a.len() {
            assert(c[i] == b[i - a.len()] && c[j] == b[j - a.len()]);
        } else {
            assert(c[i] == a[i] && c[j] == a[j]);
        }
    }
}

proof fn lemma_no_dup_prefixed(name: Seq<char>, sub: Seq<Seq<Seq<char>>>)
    requires
        sub.no_duplicates(),
    ensures
        sub.map_values(|q: Seq<Seq<char>>| seq![name] + q).no_duplicates(),
{
    let m = sub.map_values(|q: Seq<Seq<char>>| seq![name] + q);
    assert forall|i: int, j: int| 0 <= i < m.len() && 0 <= j < m.len() && i != j implies m[i] != m[j] by {
        assert(m[i].drop_first() =~= sub[i]);
        assert(m[j].drop_first() =~= sub[j]);
    }
}

/// Lists every regular file strictly below `root`, as paths relative to
/// it, leaving out files named like the marker. A root that is not a
/// directory has no files. In a well-formed tree each file is listed once.
pub fn collect_files(root: &Node) -> (r: Vec<Vec<String>>)
    ensures
        paths_view(r) == listing(*root),
        forall|p: Seq<Seq<char>>| paths_view(r).contains(p) <==> is_collected(*root, p),
        tree_wf(*root) ==> paths_view(r).no_duplicates(),
    decreases root,
{
    let mut out: Vec<Vec<String>> = Vec::new();
    match root {
        Node::File => {
            assert(paths_view(out) =~= Seq::<Seq<Seq<char>>>::empty());
        },
        Node::Dir(es) => {
            let mut i: usize = 0;
            while i < es.len()
                invariant
                    i <= es.len(),
                    *root == Node::Dir(*es),
                    forall|p: Seq<Seq<char>>|
                        paths_view(out).contains(p) <==> collected_below(es@, i as int, p),
                    tree_wf(*root) ==> paths_view(out).no_duplicates(),
                    paths_view(out) == listing_entries(es@, i as int),
                decreases es.len() - i,
            {
                let e = &es[i];
                let ghost before = paths_view(out);
                let ghost name = e.name@;
                match &e.node {
                    Node::File => {
                        let keep = !str_eq(e.name.as_str(), LOCK_NAME);
                        if keep {
                            let mut p: Vec<String> = Vec::new();
                            p.push(e.name.clone());
                            out.push(p);
                            assert(path_view(p) =~= seq![name]);
                            assert(paths_view(out) =~= before.push(seq![name]));
                            proof {
                                if tree_wf(*root) {
                                    lemma_wf_child(*es, i as int);
                                    if before.contains(seq![name]) {
                                        let p = seq![name];
                                        let j = choose|j: int| #![trigger es@[j]]
                                            0 <= j < i && es@[j].name@ == p[0] && has_file(es@[j].node, p.drop_first());
                                        assert(es@[j].name@ != es@[i as int].name@);
                                    }
                                    assert(paths_view(out) =~= before + seq![seq![name]]);
                                    lemma_no_dup_concat(before, seq![seq![name]]);
                                }
                            }
                        }
                        assert(keep == (name != lock_name()));
                        assert(paths_view(out) == if keep { before.push(seq![name]) } else { before });
                        assert(paths_view(out) == listing_entries(es@, i + 1));
                        assert forall|p: Seq<Seq<char>>|
                            paths_view(out).contains(p) <==> collected_below(es@, i + 1, p) by {
                            if before.contains(p) {
                                let j = choose|j: int| #![trigger es@[j]]
                                    0 <= j < i && es@[j].name@ == p[0] && has_file(es@[j].node, p.drop_first());
                                assert(collected_below(es@, i + 1, p));
                                let k = choose|k: int| 0 <= k < before.len() && before[k] == p;
                                assert(paths_view(out)[k] == p);
                            }
                            if paths_view(out).contains(p) && !before.contains(p) {
                                assert(keep);
                                assert(p == seq![name]);
                                assert(p.drop_first() =~= Seq::<Seq<char>>::empty());
                                assert(es@[i as int].name@ == p[0]);
                            }
                            if collected_below(es@, i + 1, p) && !collected_below(es@, i as int, p) {
                                assert(es@[i as int].name@ == p[0] && has_file(es@[i as int].node, p.drop_first()));
                                assert(p.drop_first().len() == 0);
                                assert(p =~= seq![name]);
                                assert(paths_view(out)[paths_view(out).len() - 1] == p);
                            }
                        }
                    },
                    Node::Dir(_) => {
                        proof {
                            assert(decreases_to!(*root => root->Dir_0));
                            assert(decreases_to!(*es => es@));
                            assert(decreases_to!(es@ => es@[i as int]));
                            assert(decreases_to!(es@[i as int] => es@[i as int].node));
                        }
                        let sub = collect_files(&e.node);
                        prepend_all(&e.name, &sub, &mut out);
                        let ghost added = paths_view(sub).map_values(|q: Seq<Seq<char>>| seq![name] + q);
                        assert(paths_view(out) == listing_entries(es@, i + 1));
                        proof {
                            if tree_wf(*root) {
                                lemma_wf_child(*es, i as int);
                                lemma_no_dup_prefixed(name, paths_view(sub));
                                assert forall|x: Seq<Seq<char>>| before.contains(x) implies !added.contains(x) by {
                                    let j = choose|j: int| #![trigger es@[j]]
                                        0 <= j < i && es@[j].name@ == x[0] && has_file(es@[j].node, x.drop_first());
                                    if added.contains(x) {
                                        let k = choose|k: int| 0 <= k < added.len() && added[k] == x;
                                        assert(x[0] == name);
                                        assert(es@[j].name@ != es@[i as int].name@);
                                    }
                                }
                                lemma_no_dup_concat(before, added);
                            }
                        }
                        assert forall|p: Seq<Seq<char>>|
                            paths_view(out).contains(p) <==> collected_below(es@, i + 1, p) by {
                            if before.contains(p) {
                                let j = choose|j: int| #![trigger es@[j]]
                                    0 <= j < i && es@[j].name@ == p[0] && has_file(es@[j].node, p.drop_first());
                                assert(collected_below(es@, i + 1, p));
                                let k = choose|k: int| 0 <= k < before.len() && before[k] == p;
                                assert(paths_view(out)[k] == p);
                            }
                            if paths_view(out).contains(p) && !before.contains(p) {
                                let k = choose|k: int| 0 <= k < paths_view(out).len() && paths_view(out)[k] == p;
                                assert(k >= before.len());
                                let q = paths_view(sub)[k - before.len()];
                                assert(paths_view(sub).contains(q));
                                assert(is_collected(es@[i as int].node, q));
                                assert(p == seq![name] + q);
                                assert(q.len() > 0);
                                assert(p.drop_first() =~= q);
                                assert(p.last() == q.last());
                                assert(es@[i as int].name@ == p[0]);
                            }
                            if collected_below(es@, i + 1, p) && !collected_below(es@, i as int, p) {
                                assert(es@[i as int].name@ == p[0] && has_file(es@[i as int].node, p.drop_first()));
                                let q = p.drop_first();
                                assert(q.len() > 0);
                                assert(q.last() == p.last());
                                assert(is_collected(es@[i as int].node, q));
                                assert(paths_view(sub).contains(q));
                                let k = choose|k: int| 0 <= k < paths_view(sub).len() && paths_view(sub)[k] == q;
                                assert(seq![name] + q =~= p);
                                assert(added[k] == p);
                                assert(paths_view(out)[before.len() + k] == p);
                            }
                        }
                    },
                }
                i = i + 1;
            }
        },
    }
    out
}

/// `p` leads from `n` to a directory (the empty path names `n` itself).
pub open spec fn has_dir(n: Node, p: Seq<Seq<char>>) -> bool
    decreases p.len(),
{
    if p.len() == 0 {
        n is Dir
    } else {
        match n {
            Node::File => false,
            Node::Dir(es) => exists|i: int|
                #![trigger es@[i]]
                0 <= i < es@.len() && es@[i].name@ == p[0] && has_dir(es@[i].node, p.drop_first()),
        }
    }
}

/// One step of a recursive copy, relative to both the source and the
/// destination root: make the directory `path`, or copy the file `path`.
pub struct CopyStep {
    pub path: Vec<String>,
    pub is_dir: bool,
}

/// A list of copy steps, as pairs of a path and whether it is a directory.
pub open spec fn steps_view(v: Vec<CopyStep>) -> Seq<(Seq<Seq<char>>, bool)> {
    v@.map_values(|st: CopyStep| (path_view(st.path), st.is_dir))
}

/// Every step below the top level comes after the step that makes its parent.
pub open spec fn parents_first(s: Seq<(Seq<Seq<char>>, bool)>) -> bool {
    forall|k: int|
        #![trigger s[k]]
        0 <= k < s.len() && s[k].0.len() > 1 ==> exists|j: int|
            #![trigger s[j]]
            0 <= j < k && s[j].1 && s[j].0 == s[k].0.drop_last()
}

/// Puts `name` in front of the path of a step.
pub open spec fn step_under(name: Seq<char>, st: (Seq<Seq<char>>, bool)) -> (Seq<Seq<char>>, bool) {
    (seq![name] + st.0, st.1)
}

/// Appends to `out` every step of `sub` with `name` put in front of its path.
fn prepend_steps(name: &String, sub: &Vec<CopyStep>, out: &mut Vec<CopyStep>)
    ensures
        steps_view(*final(out)) == steps_view(*old(out)) + steps_view(*sub).map_values(
            |st: (Seq<Seq<char>>, bool)| step_under(name@, st),
        ),
{
    let ghost start = steps_view(*out);
    let ghost added = steps_view(*sub).map_values(|st: (Seq<Seq<char>>, bool)| step_under(name@, st));
    let mut k: usize = 0;
    while k < sub.len()
        invariant
            k <= sub.len(),
            added == steps_view(*sub).map_values(|st: (Seq<Seq<char>>, bool)| step_under(name@, st)),
            steps_view(*out) == start + added.take(k as int),
        decreases sub.len() - k,
    {
        let p = prefixed(name, &sub[k].path);
        let st = CopyStep { path: p, is_dir: sub[k].is_dir };
        let ghost before = out@;
        out.push(st);
        assert(steps_view(*out) =~= before.map_values(
            |st: CopyStep| (path_view(st.path), st.is_dir),
        ).push((path_view(p), st.is_dir)));
        assert(added.take(k + 1) =~= added.take(k as int).push((path_view(p), st.is_dir)));
        k = k + 1;
    }
    assert(added.take(k as int) =~= added);
}

/// `p` leads from `n` to a directory when `is_dir` holds, and to a file otherwise.
pub open spec fn has_kind(n: Node, p: Seq<Seq<char>>, is_dir: bool) -> bool {
    if is_dir {
        has_dir(n, p)
    } else {
        has_file(n, p)
    }
}

/// `(p, is_dir)` is a step of copying everything below `src`.
pub open spec fn is_planned(src: Node, p: Seq<Seq<char>>, is_dir: bool) -> bool {
    p.len() > 0 && has_kind(src, p, is_dir)
}

/// `(p, is_dir)` is a step of copying the first `i` entries of a directory.
pub open spec fn planned_below(es: Seq<Entry>, i: int, p: Seq<Seq<char>>, is_dir: bool) -> bool {
    &&& p.len() > 0
    &&& exists|j: int|
        #![trigger es[j]]
        0 <= j < i && es[j].name@ == p[0] && has_kind(es[j].node, p.drop_first(), is_dir)
}

proof fn lemma_planned_in_dir(es: Vec<Entry>, p: Seq<Seq<char>>, d: bool)
    ensures
        planned_below(es@, es@.len() as int, p, d) <==> is_planned(Node::Dir(es), p, d),
{
    if p.len() > 0 {
        if planned_below(es@, es@.len() as int, p, d) {
            let j = choose|j: int| #![trigger es@[j]]
                0 <= j < es@.len() && es@[j].name@ == p[0] && has_kind(es@[j].node, p.drop_first(), d);
            if d {
                assert(has_dir(es@[j].node, p.drop_first()));
            } else {
                assert(has_file(es@[j].node, p.drop_first()));
            }
        }
        if is_planned(Node::Dir(es), p, d) {
            if d {
                let j = choose|j: int| #![trigger es@[j]]
                    0 <= j < es@.len() && es@[j].name@ == p[0] && has_dir(es@[j].node, p.drop_first());
                assert(has_kind(es@[j].node, p.drop_first(), d));
            } else {
                let j = choose|j: int| #![trigger es@[j]]
                    0 <= j < es@.len() && es@[j].name@ == p[0] && has_file(es@[j].node, p.drop_first());
                assert(has_kind(es@[j].node, p.drop_first(), d));
            }
        }
    }
}

proof fn lemma_no_dup_steps_prefixed(name: Seq<char>, sub: Seq<(Seq<Seq<char>>, bool)>)
    requires
        sub.no_duplicates(),
    ensures
        sub.map_values(|st: (Seq<Seq<char>>, bool)| step_under(name, st)).no_duplicates(),
{
    let m = sub.map_values(|st: (Seq<Seq<char>>, bool)| step_under(name, st));
    assert forall|i: int, j: int| 0 <= i < m.len() && 0 <= j < m.len() && i != j implies m[i] != m[j] by {
        assert(m[i].0.drop_first() =~= sub[i].0);
        assert(m[j].0.drop_first() =~= sub[j].0);
    }
}

/// Plans the copy of everything below `src` into a destination directory:
/// one step per directory (make it) and per file (copy it), each directory
/// before what it holds. A source that is not a directory gives no steps.
/// In a well-formed tree each step comes once.
pub fn copy_steps(src: &Node) -> (r: Vec<CopyStep>)
    ensures
        forall|p: Seq<Seq<char>>, d: bool|
            steps_view(r).contains((p, d)) <==> is_planned(*src, p, d),
        parents_first(steps_view(r)),
        tree_wf(*src) ==> steps_view(r).no_duplicates(),
    decreases src,
{
    let mut out: Vec<CopyStep> = Vec::new();
    match src {
        Node::File => {
            assert(steps_view(out) =~= Seq::<(Seq<Seq<char>>, bool)>::empty());
        },
        Node::Dir(es) => {
            let mut i: usize = 0;
            assert(steps_view(out) =~= Seq::<(Seq<Seq<char>>, bool)>::empty());
            while i < es.len()
                invariant
                    i <= es.len(),
                    *src == Node::Dir(*es),
                    parents_first(steps_view(out)),
                    tree_wf(*src) ==> steps_view(out).no_duplicates(),
                    forall|p: Seq<Seq<char>>, d: bool|
                        steps_view(out).contains((p, d)) <==> planned_below(es@, i as int, p, d),
                decreases es.len() - i,
            {
                let e = &es[i];
                let ghost before = steps_view(out);
                let ghost name = e.name@;
                let mut top: Vec<String> = Vec::new();
                top.push(e.name.clone());
                assert(path_view(top) =~= seq![name]);
                let is_dir = match &e.node {
                    Node::File => false,
                    Node::Dir(_) => true,
                };
                out.push(CopyStep { path: top, is_dir });
                let ghost mid = steps_view(out);
                assert(mid =~= before.push((seq![name], is_dir)));
                proof {
                    if tree_wf(*src) {
                        lemma_wf_child(*es, i as int);
                        assert forall|x: (Seq<Seq<char>>, bool)| before.contains(x) implies x.0[0] != name by {
                            assert(before.contains((x.0, x.1)));
                            assert(planned_below(es@, i as int, x.0, x.1));
                            let j = choose|j: int| #![trigger es@[j]]
                                0 <= j < i && es@[j].name@ == x.0[0] && has_kind(es@[j].node, x.0.drop_first(), x.1);
                            assert(es@[j].name@ != es@[i as int].name@);
                        }
                        assert(!before.contains((seq![name], is_dir)));
                        assert(mid =~= before + seq![(seq![name], is_dir)]);
                        lemma_no_dup_concat(before, seq![(seq![name], is_dir)]);
                    }
                }
                if is_dir {
                    proof {
                        assert(decreases_to!(*src => src->Dir_0));
                        assert(decreases_to!(*es => es@));
                        assert(decreases_to!(es@ => es@[i as int]));
                        assert(decreases_to!(es@[i as int] => es@[i as int].node));
                    }
                    let sub = copy_steps(&e.node);
                    prepend_steps(&e.name, &sub, &mut out);
                    let ghost sv = steps_view(sub);
                    let ghost added = sv.map_values(|st: (Seq<Seq<char>>, bool)| step_under(name, st));
                    let ghost node = es@[i as int].node;
                    assert(steps_view(out) == mid + added);
                    proof {
                        if tree_wf(*src) {
                            lemma_wf_child(*es, i as int);
                            lemma_no_dup_steps_prefixed(name, sv);
                            assert forall|x: (Seq<Seq<char>>, bool)| mid.contains(x) implies !added.contains(x) by {
                                if added.contains(x) {
                                    let k = choose|k: int| 0 <= k < added.len() && added[k] == x;
                                    assert(sv.contains((sv[k].0, sv[k].1)));
                                    assert(is_planned(node, sv[k].0, sv[k].1));
                                    assert(sv[k].0.len() > 0);
                                    assert(x.0.len() >= 2);
                                    assert(x.0[0] == name);
                                    let m = choose|m: int| 0 <= m < mid.len() && mid[m] == x;
                                    if m < before.len() {
                                        assert(before.contains((x.0, x.1)));
                                        assert(planned_below(es@, i as int, x.0, x.1));
                                        let j = choose|j: int| #![trigger es@[j]]
                                            0 <= j < i && es@[j].name@ == x.0[0] && has_kind(es@[j].node, x.0.drop_first(), x.1);
                                        assert(es@[j].name@ != es@[i as int].name@);
                                    }
                                }
                            }
                            lemma_no_dup_concat(mid, added);
                        }
                    }
                    assert forall|p: Seq<Seq<char>>, d: bool|
                        steps_view(out).contains((p, d)) <==> planned_below(es@, i + 1, p, d) by {
                        if before.contains((p, d)) {
                            let j = choose|j: int| #![trigger es@[j]]
                                0 <= j < i && es@[j].name@ == p[0] && has_kind(es@[j].node, p.drop_first(), d);
                            let k = choose|k: int| 0 <= k < before.len() && before[k] == (p, d);
                            assert(steps_view(out)[k] == (p, d));
                        }
                        if p == seq![name] && d {
                            assert(p.drop_first() =~= Seq::<Seq<char>>::empty());
                            assert(steps_view(out)[before.len() as int] == (p, d));
                            assert(es@[i as int].name@ == p[0]);
                        }
                        if steps_view(out).contains((p, d)) && !before.contains((p, d)) && !(p == seq![name] && d) {
                            let k = choose|k: int| 0 <= k < steps_view(out).len() && steps_view(out)[k] == (p, d);
                            assert(k > before.len());
                            let q = sv[k - mid.len()].0;
                            assert(sv.contains((q, d)));
                            assert(is_planned(node, q, d));
                            assert(p == seq![name] + q);
                            assert(p.drop_first() =~= q);
                            assert(es@[i as int].name@ == p[0]);
                        }
                        if planned_below(es@, i + 1, p, d) && !planned_below(es@, i as int, p, d) {
                            assert(es@[i as int].name@ == p[0] && has_kind(node, p.drop_first(), d));
                            let q = p.drop_first();
                            if q.len() == 0 {
                                assert(d);
                                assert(p =~= seq![name]);
                                assert(steps_view(out)[before.len() as int] == (p, d));
                            } else {
                                assert(is_planned(node, q, d));
                                assert(sv.contains((q, d)));
                                let k = choose|k: int| 0 <= k < sv.len() && sv[k] == (q, d);
                                assert(seq![name] + q =~= p);
                                assert(added[k] == (p, d));
                                assert(steps_view(out)[mid.len() + k] == (p, d));
                            }
                        }
                    }
                    assert forall|k: int|
                        #![trigger steps_view(out)[k]]
                        0 <= k < steps_view(out).len() && steps_view(out)[k].0.len() > 1 implies exists|j: int|
                            #![trigger steps_view(out)[j]]
                            0 <= j < k && steps_view(out)[j].1 && steps_view(out)[j].0 == steps_view(out)[k].0.drop_last() by {
                        let o = steps_view(out);
                        if k < before.len() {
                            assert(before[k] == o[k]);
                            let j = choose|j: int| #![trigger before[j]]
                                0 <= j < k && before[j].1 && before[j].0 == before[k].0.drop_last();
                            assert(o[j] == before[j]);
                        } else if k > before.len() {
                            let kk = k - mid.len();
                            let q = sv[kk].0;
                            assert(sv.contains(sv[kk]));
                            assert(q.len() > 0);
                            assert(o[k] == (seq![name] + q, sv[kk].1));
                            if q.len() == 1 {
                                assert((seq![name] + q).drop_last() =~= seq![name]);
                                assert(o[before.len() as int] == (seq![name], true));
                            } else {
                                let jj = choose|jj: int| #![trigger sv[jj]]
                                    0 <= jj < kk && sv[jj].1 && sv[jj].0 == sv[kk].0.drop_last();
                                assert((seq![name] + q).drop_last() =~= seq![name] + q.drop_last());
                                assert(o[mid.len() + jj] == step_under(name, sv[jj]));
                            }
                        }
                    }
                } else {
                    assert(steps_view(out) == mid);
                    assert forall|p: Seq<Seq<char>>, d: bool|
                        steps_view(out).contains((p, d)) <==> planned_below(es@, i + 1, p, d) by {
                        if before.contains((p, d)) {
                            let j = choose|j: int| #![trigger es@[j]]
                                0 <= j < i && es@[j].name@ == p[0] && has_kind(es@[j].node, p.drop_first(), d);
                            let k = choose|k: int| 0 <= k < before.len() && before[k] == (p, d);
                            assert(steps_view(out)[k] == (p, d));
                        }
                        if steps_view(out).contains((p, d)) && !before.contains((p, d)) {
                            assert((p, d) == (seq![name], false));
                            assert(p.drop_first() =~= Seq::<Seq<char>>::empty());
                            assert(es@[i as int].name@ == p[0]);
                        }
                        if planned_below(es@, i + 1, p, d) && !planned_below(es@, i as int, p, d) {
                            assert(es@[i as int].name@ == p[0] && has_kind(es@[i as int].node, p.drop_first(), d));
                            assert(!d);
                            assert(p.drop_first().len() == 0);
                            assert(p =~= seq![name]);
                            assert(steps_view(out)[before.len() as int] == (p, d));
                        }
                    }
                    assert forall|k: int|
                        #![trigger steps_view(out)[k]]
                        0 <= k < steps_view(out).len() && steps_view(out)[k].0.len() > 1 implies exists|j: int|
                            #![trigger steps_view(out)[j]]
                            0 <= j < k && steps_view(out)[j].1 && steps_view(out)[j].0 == steps_view(out)[k].0.drop_last() by {
                        let o = steps_view(out);
                        assert(k < before.len());
                        assert(before[k] == o[k]);
                        let j = choose|j: int| #![trigger before[j]]
                            0 <= j < k && before[j].1 && before[j].0 == before[k].0.drop_last();
                        assert(o[j] == before[j]);
                    }
                }
                i = i + 1;
            }
            assert forall|p: Seq<Seq<char>>, d: bool|
                steps_view(out).contains((p, d)) <==> is_planned(*src, p, d) by {
                lemma_planned_in_dir(*es, p, d);
            }
        },
    }
    out
}

/// One removal of clearing a directory: the immediate entry `name`, and
/// whether it goes as a whole subtree or as a single file.
pub struct Removal {
    pub name: String,
    pub is_dir: bool,
}

/// A list of removals, as pairs of a name and whether it is a directory.
pub open spec fn removals_view(v: Vec<Removal>) -> Seq<(Seq<char>, bool)> {
    v@.map_values(|rm: Removal| (rm.name@, rm.is_dir))
}

/// The removals that clearing `n` performs: one per immediate entry of a
/// directory, none for a file.
pub open spec fn removal_plan(n: Node) -> Seq<(Seq<char>, bool)> {
    match n {
        Node::File => Seq::empty(),
        Node::Dir(es) => es@.map_values(|e: Entry| (e.name@, e.node is Dir)),
    }
}

/// `n` is what clearing leaves: a directory without entries, or a file,
/// which clearing does not touch.
pub open spec fn is_cleared(n: Node) -> bool {
    match n {
        Node::File => true,
        Node::Dir(es) => es@.len() == 0,
    }
}

/// Empties the directory `dir` and returns the removals that do the same
/// on disk, one per immediate entry. A file is left as it is.
pub fn clear_children(dir: &mut Node) -> (r: Vec<Removal>)
    ensures
        removals_view(r) == removal_plan(*old(dir)),
        is_cleared(*final(dir)),
        *old(dir) is File ==> *final(dir) == *old(dir),
        *old(dir) is Dir ==> *final(dir) is Dir,
{
    let mut out: Vec<Removal> = Vec::new();
    match dir {
        Node::File => {
            assert(removals_view(out) =~= removal_plan(*dir));
        },
        Node::Dir(es) => {
            let ghost plan = removal_plan(Node::Dir(*es));
            let mut i: usize = 0;
            while i < es.len()
                invariant
                    i <= es.len(),
                    plan == es@.map_values(|e: Entry| (e.name@, e.node is Dir)),
                    removals_view(out) == plan.take(i as int),
                decreases es.len() - i,
            {
                let is_dir = match &es[i].node {
                    Node::File => false,
                    Node::Dir(_) => true,
                };
                let ghost before = out@;
                out.push(Removal { name: es[i].name.clone(), is_dir });
                assert(removals_view(out) =~= before.map_values(
                    |rm: Removal| (rm.name@, rm.is_dir),
                ).push((es@[i as int].name@, is_dir)));
                assert(plan.take(i + 1) =~= plan.take(i as int).push((es@[i as int].name@, is_dir)));
                i = i + 1;
            }
            assert(plan.take(i as int) =~= plan);
            *es = Vec::new();
        },
    }
    out
}

/// Clearing twice in a row is the same as clearing once: what the first
/// clear leaves holds no file and asks for no removal, so the second
/// clear has nothing to delete and nothing that can fail.
pub proof fn clear_is_idempotent(n: Node)
    requires
        is_cleared(n),
    ensures
        removal_plan(n).len() == 0,
        forall|p: Seq<Seq<char>>| p.len() > 0 ==> !has_file(n, p),
{
}

/// Enumeration never reports a file named like the marker, at any depth
/// and however many other files there are.
pub proof fn marker_is_never_collected(root: Node, p: Seq<Seq<char>>)
    requires
        p.len() > 0,
        p.last() == lock_name(),
    ensures
        !is_collected(root, p),
{
}

/// Staging a tree and enumerating the result gives the tree's own files:
/// a directory that holds the files of the copy plan of `src`, and perhaps
/// the marker at its top, enumerates to the relative paths that `src`
/// enumerates to.
pub proof fn staged_files_match_source(src: Node, staged: Node)
    requires
        forall|p: Seq<Seq<char>>|
            p.len() > 0 ==> (#[trigger] has_file(staged, p) <==> (is_planned(src, p, false) || p
                == seq![lock_name()])),
    ensures
        forall|p: Seq<Seq<char>>| is_collected(staged, p) <==> is_collected(src, p),
{
    assert forall|p: Seq<Seq<char>>| is_collected(staged, p) <==> is_collected(src, p) by {
        if p.len() > 0 {
            if p == seq![lock_name()] {
                assert(p.last() == lock_name());
            } else {
                assert(has_file(staged, p) <==> has_file(src, p));
            }
        }
    }
}

} // verus!
