//! The report-aggregation tree: nested duration totals keyed by note
//! segments, with a collapsing pass that merges a node into its sole child
//! when the child carries all of the node's time, and indented text
//! rendering.

use vstd::prelude::*;

use crate::numtext::{dec_digits, dec_i64, pad2, str_eq};
use crate::record::sat_i64;

verus! {

/// The mathematical value of a report tree: note text, aggregated minute
/// count, and the children in order.
#[verifier::ext_equal]
pub struct TreeV {
    pub note: Seq<char>,
    pub act: int,
    pub children: Seq<TreeV>,
}

/// One node of the report tree. A node's `act` is the sum of the durations
/// of every insertion whose path passes through it; siblings have distinct
/// notes when built through `new`/`extend`.
pub struct ReportNode {
    pub children: Vec<ReportNode>,
    pub note: String,
    pub act: i64,
}

impl ReportNode {
    /// The mathematical tree this node represents.
    pub open spec fn tree(self) -> TreeV
        decreases self,
    {
        TreeV { note: self.note@, act: self.act as int, children: trees_of(self.children@) }
    }
}

/// The mathematical trees of a sequence of nodes, in order.
pub open spec fn trees_of(nodes: Seq<ReportNode>) -> Seq<TreeV>
    decreases nodes,
{
    if nodes.len() == 0 {
        Seq::empty()
    } else {
        seq![nodes[0].tree()] + trees_of(nodes.skip(1))
    }
}

/// `trees_of` maps each node to its tree, position by position.
pub proof fn lemma_trees_of(nodes: Seq<ReportNode>)
    ensures
        trees_of(nodes).len() == nodes.len(),
        forall|i: int| 0 <= i < nodes.len() ==> #[trigger] trees_of(nodes)[i] == nodes[i].tree(),
    decreases nodes.len(),
{
    if nodes.len() > 0 {
        lemma_trees_of(nodes.skip(1));
        assert(forall|i: int|
            0 <= i < nodes.len() - 1 ==> #[trigger] nodes.skip(1)[i] == nodes[i + 1]);
        assert forall|i: int| 0 <= i < nodes.len() implies #[trigger] trees_of(nodes)[i]
            == nodes[i].tree() by {
            if i > 0 {
                assert(trees_of(nodes)[i] == trees_of(nodes.skip(1))[i - 1]);
            }
        }
    }
}

/// The singleton chain for a path: one node per segment, each the sole
/// child of its predecessor, all carrying the same duration.
pub open spec fn tv_new(path: Seq<Seq<char>>, act: int) -> TreeV
    recommends
        path.len() >= 1,
    decreases path.len(),
{
    TreeV {
        note: path[0],
        act,
        children: if path.len() > 1 {
            seq![tv_new(path.skip(1), act)]
        } else {
            Seq::empty()
        },
    }
}

/// The position of the first child whose note is `note`, or `-1`.
pub open spec fn first_child_with_note(cs: Seq<TreeV>, note: Seq<char>) -> int
    decreases cs.len(),
{
    if cs.len() == 0 {
        -1
    } else if cs[0].note == note {
        0
    } else {
        let r = first_child_with_note(cs.skip(1), note);
        if r == -1 {
            -1
        } else {
            r + 1
        }
    }
}

/// A child with the note and no earlier match is the first such child.
pub proof fn lemma_first_child_at(cs: Seq<TreeV>, note: Seq<char>, i: int)
    requires
        0 <= i < cs.len(),
        cs[i].note == note,
        forall|j: int| 0 <= j < i ==> (#[trigger] cs[j]).note != note,
    ensures
        first_child_with_note(cs, note) == i,
    decreases cs.len(),
{
    if i > 0 {
        assert(forall|j: int| 0 <= j < cs.len() - 1 ==> #[trigger] cs.skip(1)[j] == cs[j + 1]);
        lemma_first_child_at(cs.skip(1), note, i - 1);
    }
}

/// No child carries the note when the search comes back empty-handed.
pub proof fn lemma_first_child_none(cs: Seq<TreeV>, note: Seq<char>)
    requires
        forall|j: int| 0 <= j < cs.len() ==> (#[trigger] cs[j]).note != note,
    ensures
        first_child_with_note(cs, note) == -1,
    decreases cs.len(),
{
    if cs.len() > 0 {
        assert(forall|j: int| 0 <= j < cs.len() - 1 ==> #[trigger] cs.skip(1)[j] == cs[j + 1]);
        lemma_first_child_none(cs.skip(1), note);
    }
}

/// Extension: the duration is added (saturating) to every node on the
/// insertion path; at each step the remaining path descends into the child
/// carrying its first segment, or a fresh chain is appended.
pub open spec fn tv_extend(t: TreeV, path: Seq<Seq<char>>, act: int) -> TreeV
    decreases path.len(),
{
    let bumped = sat_i64(t.act + act);
    if path.len() == 0 {
        TreeV { act: bumped, ..t }
    } else {
        let i = first_child_with_note(t.children, path[0]);
        if i == -1 {
            TreeV { act: bumped, children: t.children.push(tv_new(path, act)), ..t }
        } else {
            TreeV {
                act: bumped,
                children: t.children.update(i, tv_extend(t.children[i], path.skip(1), act)),
                ..t
            }
        }
    }
}

/// Collapse: children are collapsed first; then a node whose single child
/// carries exactly its own aggregated duration absorbs that child, joining
/// the notes with a space and adopting the grandchildren.
pub open spec fn tv_collapse(t: TreeV) -> TreeV
    decreases t,
{
    let ck = tv_collapse_children(t.children);
    if ck.len() == 1 && t.act == ck[0].act {
        TreeV { note: t.note + seq![' '] + ck[0].note, act: t.act, children: ck[0].children }
    } else {
        TreeV { note: t.note, act: t.act, children: ck }
    }
}

pub open spec fn tv_collapse_children(cs: Seq<TreeV>) -> Seq<TreeV>
    decreases cs,
{
    if cs.len() == 0 {
        Seq::empty()
    } else {
        seq![tv_collapse(cs[0])] + tv_collapse_children(cs.skip(1))
    }
}

/// Collapsing a child sequence collapses each child in place.
pub proof fn lemma_collapse_children(cs: Seq<TreeV>)
    ensures
        tv_collapse_children(cs).len() == cs.len(),
        forall|i: int| 0 <= i < cs.len() ==> #[trigger] tv_collapse_children(cs)[i]
            == tv_collapse(cs[i]),
    decreases cs.len(),
{
    if cs.len() > 0 {
        lemma_collapse_children(cs.skip(1));
        assert(forall|i: int| 0 <= i < cs.len() - 1 ==> #[trigger] cs.skip(1)[i] == cs[i + 1]);
        assert forall|i: int| 0 <= i < cs.len() implies #[trigger] tv_collapse_children(cs)[i]
            == tv_collapse(cs[i]) by {
            if i > 0 {
                assert(tv_collapse_children(cs)[i] == tv_collapse_children(cs.skip(1))[i - 1]);
            }
        }
    }
}

/// Collapsing a leaf changes nothing.
pub proof fn lemma_collapse_leaf(t: TreeV)
    requires
        t.children.len() == 0,
    ensures
        tv_collapse(t) == t,
{
    assert(t.children =~= Seq::<TreeV>::empty());
    reveal_with_fuel(tv_collapse_children, 2);
    let ck = tv_collapse_children(t.children);
    assert(ck.len() == 0);
    assert(tv_collapse(t) == TreeV { note: t.note, act: t.act, children: ck });
    assert(tv_collapse(t) =~~= t);
}

impl ReportNode {
    /// Builds the singleton chain for a non-empty path, every node carrying
    /// `act`.
    pub fn new(notes: &[&str], act: i64) -> (r: ReportNode)
        requires
            notes@.len() > 0,
        ensures
            r.tree() == tv_new(path_view(notes@), act as int),
    {
        let r = Self::new_from(notes, 0, act);
        proof {
            assert(path_view(notes@).skip(0) =~= path_view(notes@));
        }
        r
    }

    /// Builds the chain for the path segments from `start` on.
    fn new_from(notes: &[&str], start: usize, act: i64) -> (r: ReportNode)
        requires
            start < notes@.len(),
        ensures
            r.tree() == tv_new(path_view(notes@).skip(start as int), act as int),
        decreases notes@.len() - start,
    {
        let note: String = notes[start].to_owned();
        let mut children: Vec<ReportNode> = Vec::new();
        let ghost path = path_view(notes@).skip(start as int);
        if start + 1 < notes.len() {
            let child = Self::new_from(notes, start + 1, act);
            children.push(child);
            proof {
                assert(path_view(notes@).skip(start as int + 1) =~= path.skip(1));
                assert(children@ =~= seq![child]);
                reveal_with_fuel(trees_of, 3);
                assert(children@.skip(1) =~= Seq::<ReportNode>::empty());
                assert(trees_of(children@) =~= seq![child.tree()]);
            }
        }
        let r = ReportNode { children, note, act };
        proof {
            if start + 1 < notes@.len() {
                assert(r.tree() =~~= tv_new(path, act as int));
            } else {
                assert(trees_of(r.children@) =~= Seq::<TreeV>::empty());
                assert(path.len() == 1);
                assert(r.tree() =~~= tv_new(path, act as int));
            }
        }
        r
    }

    /// Whether the node has no children.
    pub fn is_leaf(&self) -> (r: bool)
        ensures
            r == (self.tree().children.len() == 0),
    {
        proof {
            lemma_trees_of(self.children@);
        }
        self.children.len() == 0
    }
}

/// The note texts of a slice of path segments.
pub open spec fn path_view(notes: Seq<&str>) -> Seq<Seq<char>> {
    Seq::new(notes.len(), |i: int| notes[i]@)
}

impl ReportNode {
    /// The first child whose note equals `key`.
    fn find_child(children: &Vec<ReportNode>, key: &str) -> (r: Option<usize>)
        ensures
            match r {
                Some(i) => i < children@.len() && first_child_with_note(
                    trees_of(children@),
                    key@,
                ) == i,
                None => first_child_with_note(trees_of(children@), key@) == -1,
            },
    {
        let n = children.len();
        let mut i: usize = 0;
        while i < n
            invariant
                0 <= i <= n,
                n == children@.len(),
                forall|j: int| 0 <= j < i ==> (#[trigger] children@[j]).note@ != key@,
            decreases n - i,
        {
            if str_eq(key, children[i].note.as_str()) {
                proof {
                    lemma_trees_of(children@);
                    let cs = trees_of(children@);
                    assert(cs[i as int].note == key@);
                    assert forall|j: int| 0 <= j < i implies (#[trigger] cs[j]).note != key@ by {
                        assert(cs[j] == children@[j].tree());
                    }
                    lemma_first_child_at(cs, key@, i as int);
                }
                return Some(i);
            }
            i = i + 1;
        }
        proof {
            lemma_trees_of(children@);
            let cs = trees_of(children@);
            assert forall|j: int| 0 <= j < cs.len() implies (#[trigger] cs[j]).note != key@ by {
                assert(cs[j] == children@[j].tree());
            }
            lemma_first_child_none(cs, key@);
        }
        None
    }

    /// Folds one (path, duration) pair into this subtree: the duration is
    /// added (saturating) to this node; a non-empty path descends into the
    /// child carrying its first segment or appends a fresh chain.
    pub fn extend(&mut self, notes: &[&str], act: i64)
        ensures
            final(self).tree() == tv_extend(old(self).tree(), path_view(notes@), act as int),
    {
        self.extend_from(notes, 0, act);
        proof {
            assert(path_view(notes@).skip(0) =~= path_view(notes@));
        }
    }

    /// Folds in the path segments from `start` on.
    fn extend_from(&mut self, notes: &[&str], start: usize, act: i64)
        requires
            start <= notes@.len(),
        ensures
            final(self).tree() == tv_extend(
                old(self).tree(),
                path_view(notes@).skip(start as int),
                act as int,
            ),
        decreases notes@.len() - start,
    {
        let ghost t0 = old(self).tree();
        let ghost path = path_view(notes@).skip(start as int);
        self.act = crate::record::sat_add_i64(self.act, act);
        if start < notes.len() {
            proof {
                assert(path[0] == notes@[start as int]@);
            }
            match Self::find_child(&self.children, notes[start]) {
                Some(i) => {
                    let ghost cs0 = self.children@;
                    self.children[i].extend_from(notes, start + 1, act);
                    proof {
                        assert(path_view(notes@).skip(start as int + 1) =~= path.skip(1));
                        assert(self.children@ =~= cs0.update(
                            i as int,
                            self.children@[i as int],
                        ));
                        lemma_trees_of(cs0);
                        lemma_trees_of(self.children@);
                        assert(trees_of(self.children@) =~= trees_of(cs0).update(
                            i as int,
                            tv_extend(cs0[i as int].tree(), path.skip(1), act as int),
                        ));
                        assert(final(self).tree() =~~= tv_extend(t0, path, act as int));
                    }
                },
                None => {
                    let ghost cs0 = self.children@;
                    let node = Self::new_from(notes, start, act);
                    self.children.push(node);
                    proof {
                        lemma_trees_of(cs0);
                        lemma_trees_of(self.children@);
                        assert(self.children@ =~= cs0.push(node));
                        assert forall|j: int| 0 <= j < cs0.len() implies #[trigger] trees_of(
                            self.children@,
                        )[j] == trees_of(cs0)[j] by {
                            assert(self.children@[j] == cs0[j]);
                        }
                        assert(trees_of(self.children@) =~= trees_of(cs0).push(node.tree()));
                        assert(final(self).tree() =~~= tv_extend(t0, path, act as int));
                    }
                },
            }
        } else {
            proof {
                assert(path.len() == 0);
                assert(final(self).tree() =~~= tv_extend(t0, path, act as int));
            }
        }
    }
}

impl ReportNode {
    /// Post-order simplification: every child is collapsed first; then, if
    /// exactly one child remains and it carries all of this node's
    /// aggregated duration, the node absorbs it, joining the two notes with
    /// a space and adopting the grandchildren. The absorption chains to any
    /// depth because children are collapsed before being considered.
    pub fn collapse(&mut self)
        ensures
            final(self).tree() == tv_collapse(old(self).tree()),
        decreases *old(self),
    {
        let ghost t0 = old(self).tree();
        let ghost cs0 = old(self).children@;
        let n = self.children.len();
        let mut i: usize = 0;
        while i < n
            invariant
                0 <= i <= n,
                n == self.children@.len(),
                n == cs0.len(),
                cs0 == old(self).children@,
                self.note == old(self).note,
                self.act == old(self).act,
                forall|j: int| i <= j < n ==> #[trigger] self.children@[j] == cs0[j],
                forall|j: int| 0 <= j < i ==> (#[trigger] self.children@[j]).tree()
                    == tv_collapse(cs0[j].tree()),
            decreases n - i,
        {
            let leaf = self.children[i].children.len() == 0;
            if !leaf {
                proof {
                    assert(self.children@[i as int] == cs0[i as int]);
                    assert(decreases_to!(*old(self) => old(self).children));
                    assert(decreases_to!(old(self).children => old(self).children@));
                    assert(decreases_to!(old(self).children@ => old(self).children@[i as int]));
                }
                self.children[i].collapse();
            } else {
                proof {
                    lemma_trees_of(self.children@[i as int].children@);
                    lemma_collapse_leaf(cs0[i as int].tree());
                }
            }
            i = i + 1;
        }
        proof {
            lemma_trees_of(cs0);
            lemma_trees_of(self.children@);
            lemma_collapse_children(trees_of(cs0));
            assert(trees_of(self.children@) =~= tv_collapse_children(trees_of(cs0)));
        }
        if self.children.len() == 1 {
            proof {
                lemma_trees_of(self.children@);
            }
            if self.act == self.children[0].act {
                proof {
                    reveal_strlit(" ");
                }
                match self.children.pop() {
                    Some(c) => {
                        self.note.append(" ");
                        self.note.append(c.note.as_str());
                        self.children = c.children;
                        proof {
                            let ck = tv_collapse_children(trees_of(cs0));
                            assert(c.tree() == ck[0]);
                            assert(" "@ =~= seq![' ']);
                            assert(final(self).note@ =~= t0.note + seq![' '] + ck[0].note);
                            assert(final(self).tree() =~~= tv_collapse(t0));
                        }
                    },
                    None => {
                        proof {
                            assert(false);
                        }
                    },
                }
            } else {
                proof {
                    assert(final(self).tree() =~~= tv_collapse(t0));
                }
            }
        } else {
            proof {
                assert(final(self).tree() =~~= tv_collapse(t0));
            }
        }
    }
}

/// The duration prefix of a rendered line: `H:MM` with the minutes
/// zero-padded to two digits when rendering in hours (a sign first for
/// negative totals), else the plain minute count.
pub open spec fn duration_chars(act: int, display_in_hours: bool) -> Seq<char> {
    if display_in_hours {
        if act >= 0 {
            dec_digits((act / 60) as nat) + seq![':'] + pad2(act % 60)
        } else {
            seq!['-'] + dec_digits(((-act) / 60) as nat) + seq![':'] + pad2((-act) % 60)
        }
    } else {
        dec_i64(act)
    }
}

/// The rendered text of a tree: the node's own line, then (unless only
/// root items are wanted) each child's block on a new line, indented two
/// more spaces.
pub open spec fn tv_render(t: TreeV, display_in_hours: bool, root_items_only: bool, prefix: Seq<char>) -> Seq<char>
    decreases t,
{
    let own = prefix + duration_chars(t.act, display_in_hours) + seq![' ', ' '] + t.note;
    if root_items_only {
        own
    } else {
        own + tv_render_children(t.children, display_in_hours, prefix + seq![' ', ' '])
    }
}

pub open spec fn tv_render_children(cs: Seq<TreeV>, display_in_hours: bool, prefix: Seq<char>) -> Seq<char>
    decreases cs,
{
    if cs.len() == 0 {
        Seq::empty()
    } else {
        seq!['\n'] + tv_render(cs[0], display_in_hours, false, prefix) + tv_render_children(
            cs.skip(1),
            display_in_hours,
            prefix,
        )
    }
}

/// Rendering distributes over concatenation of child sequences.
pub proof fn lemma_render_children_append(
    a: Seq<TreeV>,
    b: Seq<TreeV>,
    display_in_hours: bool,
    prefix: Seq<char>,
)
    ensures
        tv_render_children(a + b, display_in_hours, prefix) == tv_render_children(
            a,
            display_in_hours,
            prefix,
        ) + tv_render_children(b, display_in_hours, prefix),
    decreases a.len(),
{
    if a.len() == 0 {
        assert(a + b =~= b);
        assert(tv_render_children(a, display_in_hours, prefix) + tv_render_children(
            b,
            display_in_hours,
            prefix,
        ) =~= tv_render_children(b, display_in_hours, prefix));
    } else {
        lemma_render_children_append(a.skip(1), b, display_in_hours, prefix);
        assert((a + b).skip(1) =~= a.skip(1) + b);
        assert((a + b)[0] == a[0]);
        assert(tv_render_children(a + b, display_in_hours, prefix) =~= tv_render_children(
            a,
            display_in_hours,
            prefix,
        ) + tv_render_children(b, display_in_hours, prefix));
    }
}

/// Appends the duration prefix of a rendered line.
fn append_duration(out: &mut String, act: i64, display_in_hours: bool)
    ensures
        final(out)@ == old(out)@ + duration_chars(act as int, display_in_hours),
{
    if display_in_hours {
        proof {
            reveal_strlit("-");
            reveal_strlit(":");
        }
        let mag: u64 = if act >= 0 {
            act as u64
        } else if act == i64::MIN {
            9_223_372_036_854_775_808u64
        } else {
            (-act) as u64
        };
        if act < 0 {
            out.append("-");
        }
        crate::numtext::append_u64(out, mag / 60);
        out.append(":");
        crate::numtext::append_pad2(out, (mag % 60) as u8);
        proof {
            if act >= 0 {
                assert(mag / 60 == act as int / 60);
                assert(mag % 60 == act as int % 60);
            } else {
                assert(mag == -(act as int));
                assert(mag / 60 == (-(act as int)) / 60);
                assert(mag % 60 == (-(act as int)) % 60);
            }
            assert(final(out)@ =~= old(out)@ + duration_chars(act as int, display_in_hours));
        }
    } else {
        crate::numtext::append_i64(out, act);
    }
}

impl ReportNode {
    /// The rendered report: this node's line, and its descendants' lines
    /// unless only root items are wanted.
    pub fn to_string(&self, display_in_hours: bool, root_items_only: bool) -> (s: String)
        ensures
            s@ == tv_render(self.tree(), display_in_hours, root_items_only, Seq::empty()),
    {
        proof {
            reveal_strlit("");
        }
        let s = self.to_string_producer("", display_in_hours, root_items_only);
        proof {
            assert(""@ =~= Seq::<char>::empty());
        }
        s
    }

    /// Renders this subtree with the given indent prefix.
    fn to_string_producer(&self, prefix: &str, display_in_hours: bool, root_items_only: bool) -> (s:
        String)
        ensures
            s@ == tv_render(self.tree(), display_in_hours, root_items_only, prefix@),
        decreases *self,
    {
        let ghost t = self.tree();
        let mut out = String::new();
        out.append(prefix);
        append_duration(&mut out, self.act, display_in_hours);
        proof {
            reveal_strlit("  ");
            assert("  "@ =~= seq![' ', ' ']);
        }
        out.append("  ");
        out.append(self.note.as_str());
        proof {
            assert(out@ =~= prefix@ + duration_chars(t.act, display_in_hours) + seq![' ', ' ']
                + t.note);
        }
        if root_items_only {
            return out;
        }
        let mut child_prefix: String = prefix.to_owned();
        proof {
            reveal_strlit("  ");
        }
        child_prefix.append("  ");
        let ghost own = out@;
        let ghost cs = trees_of(self.children@);
        proof {
            lemma_trees_of(self.children@);
        }
        let n = self.children.len();
        let mut i: usize = 0;
        while i < n
            invariant
                0 <= i <= n,
                n == self.children@.len(),
                cs == trees_of(self.children@),
                cs.len() == n,
                forall|j: int| 0 <= j < n ==> #[trigger] cs[j] == self.children@[j].tree(),
                child_prefix@ == prefix@ + seq![' ', ' '],
                out@ == own + tv_render_children(cs.take(i as int), display_in_hours, child_prefix@),
            decreases n - i,
        {
            proof {
                assert(decreases_to!(*self => self.children));
                assert(decreases_to!(self.children => self.children@));
                assert(decreases_to!(self.children@ => self.children@[i as int]));
            }
            let block = self.children[i].to_string_producer(
                child_prefix.as_str(),
                display_in_hours,
                false,
            );
            proof {
                reveal_strlit("\n");
                assert("\n"@ =~= seq!['\n']);
            }
            out.append("\n");
            out.append(block.as_str());
            proof {
                lemma_render_children_append(
                    cs.take(i as int),
                    seq![cs[i as int]],
                    display_in_hours,
                    child_prefix@,
                );
                assert(cs.take(i + 1) =~= cs.take(i as int) + seq![cs[i as int]]);
                reveal_with_fuel(tv_render_children, 3);
                assert(seq![cs[i as int]].skip(1) =~= Seq::<TreeV>::empty());
                assert(tv_render_children(seq![cs[i as int]], display_in_hours, child_prefix@)
                    =~= seq!['\n'] + tv_render(cs[i as int], display_in_hours, false, child_prefix@));
                assert(out@ =~= own + tv_render_children(
                    cs.take(i + 1),
                    display_in_hours,
                    child_prefix@,
                ));
            }
            i = i + 1;
        }
        proof {
            assert(cs.take(n as int) =~= cs);
            assert(out@ =~= tv_render(t, display_in_hours, root_items_only, prefix@));
        }
        out
    }
}

} // verus!
