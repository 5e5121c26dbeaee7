//! The journal: an ordered, append-only sequence of text lines addressed by
//! position, with signed-offset resolution, replace-in-place updates, single
//! line removal, a bidirectional cursor, and backward-bounded listing.
//!
//! A line that matches the record grammar is a record line; any other line
//! is raw and is carried byte-for-byte. All addressing is positional: a
//! non-negative offset counts from the start, `-1` is the last line and
//! `-(k)` the k-th line counting backward from the end. When filters are
//! given, offsets count only the lines that satisfy every filter.

use vstd::prelude::*;
use vstd::pervasive::VecAdditionalExecFns;

use crate::record::{
    lemma_line_roundtrip, spec_parse_line, spec_serialize, Record, RecordV,
};
use crate::time::{date_lt, Date};

verus! {

/// A journal line as handed to callers: a parsed record, or the raw text of
/// a line that does not match the record grammar.
pub enum Line {
    Record(Record),
    Raw(String),
}

/// The mathematical value of a line.
pub enum LineV {
    Record(RecordV),
    Raw(Seq<char>),
}

impl View for Line {
    type V = LineV;

    open spec fn view(&self) -> LineV {
        match self {
            Line::Record(r) => LineV::Record(r@),
            Line::Raw(s) => LineV::Raw(s@),
        }
    }
}

/// What a stored line denotes to a reader.
pub open spec fn spec_line_of(s: Seq<char>) -> LineV {
    match spec_parse_line(s) {
        Some(rv) => LineV::Record(rv),
        None => LineV::Raw(s),
    }
}

/// A structural predicate on lines; offsets resolve only against lines that
/// pass every given filter. No current caller passes any, so this is an
/// extension point.
#[derive(Clone, Copy, PartialEq, Eq, Structural, Debug)]
pub enum Filter {
    /// Only lines that parse as records.
    Records,
    /// Only lines that do not parse as records.
    Raws,
}

pub open spec fn spec_passes(f: Filter, s: Seq<char>) -> bool {
    match f {
        Filter::Records => spec_parse_line(s) is Some,
        Filter::Raws => spec_parse_line(s) is None,
    }
}

pub open spec fn spec_passes_all(fs: Seq<Filter>, s: Seq<char>) -> bool {
    forall|i: int| 0 <= i < fs.len() ==> spec_passes(#[trigger] fs[i], s)
}

impl Filter {
    /// Whether a line passes this filter.
    pub fn passes(&self, s: &String) -> (r: bool)
        ensures
            r == spec_passes(*self, s@),
    {
        match self {
            Filter::Records => Record::from_line(s.as_str()).is_some(),
            Filter::Raws => Record::from_line(s.as_str()).is_none(),
        }
    }
}

/// Whether a line passes every filter in the slice.
fn passes_all(filters: &[Filter], s: &String) -> (r: bool)
    ensures
        r == spec_passes_all(filters@, s@),
{
    let n = filters.len();
    let mut i: usize = 0;
    while i < n
        invariant
            0 <= i <= n,
            n == filters@.len(),
            forall|j: int| 0 <= j < i ==> spec_passes(#[trigger] filters@[j], s@),
        decreases n - i,
    {
        if !filters[i].passes(s) {
            return false;
        }
        i = i + 1;
    }
    true
}

/// The error of a record-only operation whose resolved target exists but is
/// not a record line.
#[derive(Clone, Copy, PartialEq, Eq, Structural, Debug)]
pub enum JournalError {
    NotARecord,
}

/// The number of lines that pass every filter.
pub open spec fn count_matching(lines: Seq<Seq<char>>, fs: Seq<Filter>) -> int
    decreases lines.len(),
{
    if lines.len() == 0 {
        0
    } else {
        count_matching(lines.drop_last(), fs) + if spec_passes_all(fs, lines.last()) {
            1int
        } else {
            0int
        }
    }
}

/// The position of the matching line with `n` matching lines before it, or
/// `-1` when there is no such line.
pub open spec fn nth_matching(lines: Seq<Seq<char>>, fs: Seq<Filter>, n: int) -> int
    decreases lines.len(),
{
    if lines.len() == 0 {
        -1
    } else if n < count_matching(lines.drop_last(), fs) {
        nth_matching(lines.drop_last(), fs, n)
    } else if n == count_matching(lines.drop_last(), fs) && spec_passes_all(fs, lines.last()) {
        lines.len() - 1
    } else {
        -1
    }
}

/// The effective offset of an operation: absent means the first line.
pub open spec fn eff_offset(o: Option<i64>) -> int {
    match o {
        Some(v) => v as int,
        None => 0,
    }
}

/// Offset resolution: a non-negative offset addresses the matching line
/// with that many matching lines before it; a negative offset `-k`
/// addresses the k-th matching line counting backward from the end. `None`
/// when the offset is outside the matching range.
pub open spec fn resolve_offset(lines: Seq<Seq<char>>, fs: Seq<Filter>, offset: int) -> Option<
    int,
> {
    let total = count_matching(lines, fs);
    let idx = if offset >= 0 {
        offset
    } else {
        total + offset
    };
    if 0 <= idx < total {
        Some(nth_matching(lines, fs, idx))
    } else {
        None
    }
}

/// Counting matches over a longer prefix never counts fewer.
pub proof fn lemma_count_take_monotone(lines: Seq<Seq<char>>, fs: Seq<Filter>, k1: int, k2: int)
    requires
        0 <= k1 <= k2 <= lines.len(),
    ensures
        count_matching(lines.take(k1), fs) <= count_matching(lines.take(k2), fs),
        count_matching(lines.take(k2), fs) <= count_matching(lines.take(k1), fs) + (k2 - k1),
    decreases k2 - k1,
{
    if k1 < k2 {
        lemma_count_take_monotone(lines, fs, k1, k2 - 1);
        assert(lines.take(k2).drop_last() =~= lines.take(k2 - 1));
        assert(count_matching(lines.take(k2), fs) == count_matching(lines.take(k2 - 1), fs) + if spec_passes_all(
            fs,
            lines[k2 - 1],
        ) {
            1int
        } else {
            0int
        });
    }
}

/// A matching line at `j` is the one addressed by the number of matches
/// before it.
pub proof fn lemma_nth_matching_at(lines: Seq<Seq<char>>, fs: Seq<Filter>, j: int)
    requires
        0 <= j < lines.len(),
        spec_passes_all(fs, lines[j]),
    ensures
        nth_matching(lines, fs, count_matching(lines.take(j), fs)) == j,
    decreases lines.len(),
{
    let n = count_matching(lines.take(j), fs);
    if j == lines.len() - 1 {
        assert(lines.take(j) =~= lines.drop_last());
        assert(n == count_matching(lines.drop_last(), fs));
    } else {
        let shorter = lines.drop_last();
        assert(shorter.take(j) =~= lines.take(j));
        lemma_nth_matching_at(shorter, fs, j);
        lemma_count_take_monotone(lines, fs, j + 1, lines.len() - 1);
        assert(lines.take(lines.len() - 1) =~= shorter);
        assert(lines.take(j + 1).drop_last() =~= lines.take(j));
        assert(count_matching(lines.take(j + 1), fs) == n + 1);
        assert(n < count_matching(shorter, fs));
    }
}

/// The journal: an ordered sequence of text lines. Its view is the sequence
/// of line character-sequences.
pub struct Journal {
    lines: Vec<String>,
}

impl View for Journal {
    type V = Seq<Seq<char>>;

    closed spec fn view(&self) -> Seq<Seq<char>> {
        self.lines.deep_view()
    }
}

impl Journal {
    /// An empty journal.
    pub fn new() -> (j: Journal)
        ensures
            j@ =~= Seq::<Seq<char>>::empty(),
    {
        Journal { lines: Vec::new() }
    }

    /// The number of lines.
    pub fn len(&self) -> (n: usize)
        ensures
            n == self@.len(),
    {
        self.lines.len()
    }

    /// Appends a record line at the tail.
    pub fn add(&mut self, record: &Record)
        requires
            record.wf(),
        ensures
            final(self)@ =~= old(self)@.push(spec_serialize(record@)),
    {
        let line = record.to_line();
        self.lines.push(line);
        proof {
            assert(self@ =~= old(self)@.push(spec_serialize(record@)));
        }
    }

    /// Resolves a signed offset against the lines passing the filters.
    fn resolve(&self, filters: &[Filter], offset: Option<i64>) -> (r: Option<usize>)
        ensures
            match resolve_offset(self@, filters@, eff_offset(offset)) {
                Some(i) => r matches Some(u) && u == i && 0 <= i < self@.len(),
                None => r is None,
            },
    {
        let ghost lines = self@;
        let ghost fs = filters@;
        let off: i64 = match offset {
            Some(v) => v,
            None => 0,
        };
        let n = self.lines.len();
        // First pass: count the matching lines.
        let mut total: usize = 0;
        let mut i: usize = 0;
        while i < n
            invariant
                0 <= i <= n,
                n == lines.len(),
                lines == self@,
                fs == filters@,
                total == count_matching(lines.take(i as int), fs),
                total <= i,
            decreases n - i,
        {
            proof {
                assert(lines.take(i + 1).drop_last() =~= lines.take(i as int));
                assert(lines.take(i + 1).last() == lines[i as int]);
                assert(self@[i as int] == self.lines@[i as int]@);
            }
            if passes_all(filters, &self.lines[i]) {
                total = total + 1;
            }
            i = i + 1;
        }
        proof {
            assert(lines.take(n as int) =~= lines);
        }
        // The effective index among matching lines.
        let idx: u64;
        if off >= 0 {
            idx = off as u64;
        } else {
            let k: u64 = if off == i64::MIN {
                9_223_372_036_854_775_808u64
            } else {
                (-off) as u64
            };
            if k > total as u64 {
                return None;
            }
            idx = total as u64 - k;
        }
        if idx >= total as u64 {
            return None;
        }
        proof {
            assert(resolve_offset(lines, fs, eff_offset(offset)) == Some(
                nth_matching(lines, fs, idx as int),
            ));
        }
        // Second pass: find the matching line with `idx` matches before it.
        let mut count: usize = 0;
        let mut j: usize = 0;
        while j < n
            invariant
                0 <= j <= n,
                n == lines.len(),
                lines == self@,
                fs == filters@,
                count == count_matching(lines.take(j as int), fs),
                count <= j,
                count <= idx,
                idx < count_matching(lines, fs),
                resolve_offset(lines, fs, eff_offset(offset)) == Some(
                    nth_matching(lines, fs, idx as int),
                ),
            decreases n - j,
        {
            proof {
                assert(lines.take(j + 1).drop_last() =~= lines.take(j as int));
                assert(lines.take(j + 1).last() == lines[j as int]);
                assert(self@[j as int] == self.lines@[j as int]@);
            }
            let p = passes_all(filters, &self.lines[j]);
            if p && count as u64 == idx {
                proof {
                    lemma_nth_matching_at(lines, fs, j as int);
                }
                return Some(j);
            }
            if p {
                count = count + 1;
            }
            j = j + 1;
        }
        proof {
            assert(lines.take(n as int) =~= lines);
            assert(false);
        }
        None
    }


    /// Resolves the target like `get` and rewrites exactly that line.
    ///
    /// Returns `Ok(false)` and leaves the journal untouched when no line
    /// matches. Fails with `NotARecord` when the resolved line is not a
    /// record. Otherwise the transform is invoked once on the parsed
    /// record: `Some(new)` rewrites exactly the targeted physical line with
    /// the new record's text, every other line staying identical;
    /// `None` aborts the update leaving the journal unchanged; either way
    /// the call returns `Ok(true)` because a target was found and
    /// processed.
    pub fn update<F: FnOnce(Record) -> Option<Record>>(
        &mut self,
        filters: &[Filter],
        offset: Option<i64>,
        transform: F,
    ) -> (r: Result<bool, JournalError>)
        requires
            forall|rec: Record| rec.wf() ==> #[trigger] call_requires(transform, (rec,)),
            forall|rec: Record, out: Option<Record>|
                rec.wf() && #[trigger] call_ensures(transform, (rec,), out) ==> (out matches Some(
                    nr,
                ) ==> nr.wf()),
        ensures
            match resolve_offset(old(self)@, filters@, eff_offset(offset)) {
                None => r matches Ok(b) && b == false && final(self)@ == old(self)@,
                Some(i) => match spec_parse_line(old(self)@[i]) {
                    None => r matches Err(e) && e == JournalError::NotARecord && final(self)@
                        == old(self)@,
                    Some(rv) => r matches Ok(b) && b == true && exists|
                        rec: Record,
                        out: Option<Record>,
                    |
                        rec@ == rv && #[trigger] call_ensures(transform, (rec,), out) && match out {
                            None => final(self)@ == old(self)@,
                            Some(nr) => final(self)@ == old(self)@.update(
                                i,
                                spec_serialize(nr@),
                            ),
                        },
                },
            },
    {
        let i = match self.resolve(filters, offset) {
            None => {
                return Ok(false);
            },
            Some(i) => i,
        };
        proof {
            assert(self@[i as int] == self.lines@[i as int]@);
        }
        let rec = match Record::from_line(self.lines[i].as_str()) {
            None => {
                return Err(JournalError::NotARecord);
            },
            Some(rec) => rec,
        };
        let ghost grec = rec;
        let out = transform(rec);
        let ghost gout = out;
        match out {
            None => Ok(true),
            Some(nr) => {
                let line = nr.to_line();
                self.lines.set(i, line);
                proof {
                    assert(self@ =~= old(self)@.update(i as int, spec_serialize(nr@)));
                    assert(call_ensures(transform, (grec,), gout));
                }
                Ok(true)
            },
        }
    }

    /// Resolves the target like `get`; if it is a record, the predicate
    /// decides removal.
    ///
    /// Returns `Ok(false)` and leaves the journal untouched when no line
    /// matches. Fails with `NotARecord` when the resolved line is not a
    /// record. Otherwise the predicate is invoked once on the parsed
    /// record: `true` deletes exactly that physical line, all later lines
    /// shifting up by one and earlier lines unaffected; `false` leaves the
    /// journal unchanged; either way the call returns `Ok(true)` because a
    /// target was found.
    pub fn remove<P: FnOnce(Record) -> bool>(
        &mut self,
        filters: &[Filter],
        offset: Option<i64>,
        predicate: P,
    ) -> (r: Result<bool, JournalError>)
        requires
            forall|rec: Record| rec.wf() ==> #[trigger] call_requires(predicate, (rec,)),
        ensures
            match resolve_offset(old(self)@, filters@, eff_offset(offset)) {
                None => r matches Ok(b) && b == false && final(self)@ == old(self)@,
                Some(i) => match spec_parse_line(old(self)@[i]) {
                    None => r matches Err(e) && e == JournalError::NotARecord && final(self)@
                        == old(self)@,
                    Some(rv) => r matches Ok(b) && b == true && exists|rec: Record, del: bool|
                        rec@ == rv && #[trigger] call_ensures(predicate, (rec,), del) && if del {
                            final(self)@ == old(self)@.remove(i)
                        } else {
                            final(self)@ == old(self)@
                        },
                },
            },
    {
        let i = match self.resolve(filters, offset) {
            None => {
                return Ok(false);
            },
            Some(i) => i,
        };
        proof {
            assert(self@[i as int] == self.lines@[i as int]@);
        }
        let rec = match Record::from_line(self.lines[i].as_str()) {
            None => {
                return Err(JournalError::NotARecord);
            },
            Some(rec) => rec,
        };
        let ghost grec = rec;
        let del = predicate(rec);
        if del {
            let _ = self.lines.remove(i);
            proof {
                assert(self@ =~= old(self)@.remove(i as int));
                assert(call_ensures(predicate, (grec,), del));
            }
        }
        Ok(true)
    }

    /// Resolves `offset` against the lines passing `filters`: the resolved
    /// line as a record or raw text, or `None` when the offset is out of
    /// range.
    pub fn get(&self, filters: &[Filter], offset: Option<i64>) -> (r: Option<Line>)
        ensures
            match resolve_offset(self@, filters@, eff_offset(offset)) {
                Some(i) => r matches Some(l) && l@ == spec_line_of(self@[i]) && (l matches
                    Line::Record(rec) ==> rec.wf()),
                None => r is None,
            },
    {
        match self.resolve(filters, offset) {
            None => None,
            Some(i) => {
                proof {
                    assert(self@[i as int] == self.lines@[i as int]@);
                }
                let s = &self.lines[i];
                match Record::from_line(s.as_str()) {
                    Some(rec) => Some(Line::Record(rec)),
                    None => Some(Line::Raw(s.clone())),
                }
            },
        }
    }
}

/// The lines of a text: each newline ends a line, and a final fragment
/// without a newline is also a line.
pub open spec fn spec_split_lines(s: Seq<char>) -> Seq<Seq<char>>
    decreases s.len(),
    via spec_split_lines_decreases
{
    if s.len() == 0 {
        Seq::empty()
    } else {
        let nl = crate::numtext::first_index_of(s, '\n');
        if nl == -1 {
            seq![s]
        } else {
            seq![s.take(nl)] + spec_split_lines(s.skip(nl + 1))
        }
    }
}

#[via_fn]
proof fn spec_split_lines_decreases(s: Seq<char>) {
    crate::numtext::lemma_first_index_props(s, '\n');
}

/// The text of a sequence of lines: each line followed by a newline.
pub open spec fn spec_join_lines(lines: Seq<Seq<char>>) -> Seq<char>
    decreases lines.len(),
{
    if lines.len() == 0 {
        Seq::empty()
    } else {
        lines[0] + seq!['\n'] + spec_join_lines(lines.skip(1))
    }
}

pub open spec fn line_has_no_newline(s: Seq<char>) -> bool {
    forall|i: int| 0 <= i < s.len() ==> s[i] != '\n'
}

/// Joining distributes over concatenation of line sequences.
pub proof fn lemma_join_append(a: Seq<Seq<char>>, b: Seq<Seq<char>>)
    ensures
        spec_join_lines(a + b) == spec_join_lines(a) + spec_join_lines(b),
    decreases a.len(),
{
    if a.len() == 0 {
        assert(a + b =~= b);
        assert(spec_join_lines(a) + spec_join_lines(b) =~= spec_join_lines(b));
    } else {
        lemma_join_append(a.skip(1), b);
        assert((a + b).skip(1) =~= a.skip(1) + b);
        assert((a + b)[0] == a[0]);
        assert(spec_join_lines(a + b) =~= spec_join_lines(a) + spec_join_lines(b));
    }
}

/// Splitting the joined text of newline-free lines yields the lines again:
/// the journal's file round trip.
pub proof fn lemma_split_join(lines: Seq<Seq<char>>)
    requires
        forall|i: int| 0 <= i < lines.len() ==> line_has_no_newline(#[trigger] lines[i]),
    ensures
        spec_split_lines(spec_join_lines(lines)) == lines,
    decreases lines.len(),
{
    if lines.len() > 0 {
        let first = lines[0];
        let rest = spec_join_lines(lines.skip(1));
        let s = spec_join_lines(lines);
        assert(s =~= first + seq!['\n'] + rest);
        assert(s.len() > 0);
        assert(s[first.len() as int] == '\n');
        assert(forall|j: int| 0 <= j < first.len() ==> #[trigger] s[j] == first[j]);
        crate::numtext::lemma_first_index_is(s, '\n', first.len() as int);
        assert(s.take(first.len() as int) =~= first);
        assert(s.skip(first.len() as int + 1) =~= rest);
        lemma_split_join(lines.skip(1));
        assert(spec_split_lines(s) =~= seq![first] + lines.skip(1));
        assert(seq![first] + lines.skip(1) =~= lines);
    }
}

impl Journal {
    /// A journal holding the lines of the given text.
    pub fn from_text(text: &str) -> (j: Journal)
        ensures
            j@ == spec_split_lines(text@),
    {
        let mut lines: Vec<String> = Vec::new();
        let len = text.unicode_len();
        let mut start: usize = 0;
        proof {
            assert(text@.skip(0) =~= text@);
            assert(lines.deep_view() =~= Seq::<Seq<char>>::empty());
            assert(lines.deep_view() + spec_split_lines(text@) =~= spec_split_lines(text@));
        }
        while start < len
            invariant
                0 <= start <= len,
                len == text@.len(),
                spec_split_lines(text@) =~= lines.deep_view() + spec_split_lines(
                    text@.skip(start as int),
                ),
            decreases len - start,
        {
            let ghost prev = lines.deep_view();
            match crate::numtext::find_char_from(text, start, '\n') {
                Some(nl) => {
                    let piece = text.substring_char(start, nl);
                    lines.push(piece.to_owned());
                    proof {
                        let tail = text@.skip(start as int);
                        assert(tail.len() > 0);
                        assert(crate::numtext::first_index_of(tail, '\n') == nl - start);
                        assert(tail.take(nl - start) =~= piece@);
                        assert(tail.skip(nl - start + 1) =~= text@.skip(nl + 1));
                        assert(spec_split_lines(tail) =~= seq![piece@] + spec_split_lines(
                            text@.skip(nl + 1),
                        ));
                        assert(lines.deep_view() =~= prev.push(piece@));
                        assert(prev + spec_split_lines(tail) =~= lines.deep_view()
                            + spec_split_lines(text@.skip(nl + 1)));
                    }
                    start = nl + 1;
                },
                None => {
                    let piece = text.substring_char(start, len);
                    lines.push(piece.to_owned());
                    proof {
                        let tail = text@.skip(start as int);
                        assert(tail.len() > 0);
                        assert(crate::numtext::first_index_of(tail, '\n') == -1);
                        assert(tail =~= piece@);
                        assert(spec_split_lines(tail) =~= seq![piece@]);
                        assert(lines.deep_view() =~= prev.push(piece@));
                        assert(text@.skip(len as int) =~= Seq::<char>::empty());
                        assert(prev + spec_split_lines(tail) =~= lines.deep_view()
                            + spec_split_lines(text@.skip(len as int)));
                    }
                    start = len;
                },
            }
        }
        proof {
            assert(text@.skip(start as int) =~= text@.skip(len as int));
            assert(text@.skip(len as int) =~= Seq::<char>::empty());
        }
        Journal { lines }
    }

    /// The full text of the journal: every line followed by a newline.
    pub fn to_text(&self) -> (s: String)
        ensures
            s@ == spec_join_lines(self@),
    {
        proof {
            reveal_strlit("\n");
        }
        let mut out = String::new();
        let n = self.lines.len();
        let mut i: usize = 0;
        while i < n
            invariant
                0 <= i <= n,
                n == self@.len(),
                out@ == spec_join_lines(self@.take(i as int)),
            decreases n - i,
        {
            proof {
                assert(self@[i as int] == self.lines@[i as int]@);
                lemma_join_append(self@.take(i as int), seq![self@[i as int]]);
                assert(self@.take(i + 1) =~= self@.take(i as int) + seq![self@[i as int]]);
                reveal_strlit("\n");
                reveal_with_fuel(spec_join_lines, 3);
                assert("\n"@ =~= seq!['\n']);
                assert(seq![self@[i as int]].skip(1) =~= Seq::<Seq<char>>::empty());
                assert(spec_join_lines(seq![self@[i as int]]) =~= self@[i as int] + seq!['\n']);
            }
            out.append(self.lines[i].as_str());
            out.append("\n");
            proof {
                assert(out@ =~= spec_join_lines(self@.take(i + 1)));
            }
            i = i + 1;
        }
        proof {
            assert(self@.take(n as int) =~= self@);
        }
        out
    }
}

/// A bidirectional, position-addressed traversal handle over a journal's
/// lines, valid for one in-memory traversal. Conceptual positions run from
/// one before the first line (`-1`) to one past the last (`len`); `get`
/// returns a line only when the position is on one.
pub struct Cursor<'a> {
    journal: &'a Journal,
    /// The conceptual position shifted up by one, so that "before the
    /// first line" is representable in a machine integer.
    pos: usize,
}

impl<'a> Cursor<'a> {
    /// The lines the cursor walks.
    pub closed spec fn lines(self) -> Seq<Seq<char>> {
        self.journal@
    }

    /// The conceptual position, in `-1 ..= lines().len()`.
    pub closed spec fn position(self) -> int {
        self.pos - 1
    }

    pub closed spec fn wf(self) -> bool {
        &&& self.pos <= self.lines().len() + 1
        &&& self.lines().len() < usize::MAX
    }

    /// Seeks one past the last line.
    pub fn go_to_end(self) -> (c: Cursor<'a>)
        requires
            self.wf(),
        ensures
            c.wf(),
            c.lines() == self.lines(),
            c.position() == c.lines().len(),
    {
        let n = self.journal.lines.len();
        Cursor { journal: self.journal, pos: n + 1 }
    }

    /// Moves `n` lines backward, stopping one before the first line.
    pub fn backward(self, n: usize) -> (c: Cursor<'a>)
        requires
            self.wf(),
        ensures
            c.wf(),
            c.lines() == self.lines(),
            c.position() == if self.position() - n >= -1 {
                self.position() - n
            } else {
                -1int
            },
    {
        let pos = if self.pos > n {
            self.pos - n
        } else {
            0
        };
        Cursor { journal: self.journal, pos }
    }

    /// Moves `n` lines forward, stopping one past the last line.
    pub fn forward(self, n: usize) -> (c: Cursor<'a>)
        requires
            self.wf(),
        ensures
            c.wf(),
            c.lines() == self.lines(),
            c.position() == if self.position() + n <= self.lines().len() {
                self.position() + n
            } else {
                self.lines().len() as int
            },
    {
        let cap = self.journal.lines.len() + 1;
        let pos = if cap - self.pos <= n {
            cap
        } else {
            self.pos + n
        };
        Cursor { journal: self.journal, pos }
    }

    /// The line at the current position, or `None` when the cursor stands
    /// before the first or past the last line.
    pub fn get(&self) -> (r: Option<Line>)
        ensures
            if 0 <= self.position() < self.lines().len() {
                r matches Some(l) && l@ == spec_line_of(self.lines()[self.position()]) && (
                l matches Line::Record(rec) ==> rec.wf())
            } else {
                r is None
            },
    {
        if self.pos >= 1 && self.pos <= self.journal.lines.len() {
            let i = self.pos - 1;
            proof {
                assert(self.lines()[i as int] == self.journal.lines@[i as int]@);
            }
            let s = &self.journal.lines[i];
            match Record::from_line(s.as_str()) {
                Some(rec) => Some(Line::Record(rec)),
                None => Some(Line::Raw(s.clone())),
            }
        } else {
            None
        }
    }
}

impl Journal {
    /// A cursor over the full line sequence, standing on the first line.
    pub fn try_iter(&self) -> (c: Cursor<'_>)
        requires
            self@.len() < usize::MAX,
        ensures
            c.wf(),
            c.lines() == self@,
            c.position() == 0,
    {
        Cursor { journal: self, pos: 1 }
    }
}

/// Whether a line stops the backward-bounded scan: a record line whose
/// start date is strictly earlier than the cutoff. Raw lines and records
/// without a start never stop the scan.
pub open spec fn is_stopper(s: Seq<char>, cutoff: Option<Date>) -> bool {
    match cutoff {
        None => false,
        Some(c) => match spec_parse_line(s) {
            Some(rv) => match rv.start {
                Some(dt) => date_lt(dt.date, c),
                None => false,
            },
            None => false,
        },
    }
}

/// The first line index the backward-bounded scan includes: one past the
/// last stopping line, or zero when nothing stops the scan.
pub open spec fn list_start(lines: Seq<Seq<char>>, cutoff: Option<Date>) -> int
    decreases lines.len(),
{
    if lines.len() == 0 {
        0
    } else if is_stopper(lines.last(), cutoff) {
        lines.len() as int
    } else {
        list_start(lines.drop_last(), cutoff)
    }
}

/// How a listed line is emitted: record lines re-rendered from their
/// parsed value, raw lines verbatim.
pub open spec fn render_line(s: Seq<char>) -> Seq<char> {
    match spec_parse_line(s) {
        Some(rv) => spec_serialize(rv),
        None => s,
    }
}

/// `list_start` marks the suffix after the last stopping line: everything
/// from it on is no stopper, and the line just before it (if any) is one.
pub proof fn lemma_list_start_props(lines: Seq<Seq<char>>, cutoff: Option<Date>)
    ensures
        0 <= list_start(lines, cutoff) <= lines.len(),
        list_start(lines, cutoff) > 0 ==> is_stopper(lines[list_start(lines, cutoff) - 1], cutoff),
        forall|k: int| list_start(lines, cutoff) <= k < lines.len() ==> !is_stopper(
            #[trigger] lines[k],
            cutoff,
        ),
    decreases lines.len(),
{
    if lines.len() > 0 && !is_stopper(lines.last(), cutoff) {
        let shorter = lines.drop_last();
        lemma_list_start_props(shorter, cutoff);
        assert(forall|k: int| 0 <= k < shorter.len() ==> #[trigger] shorter[k] == lines[k]);
        let ls = list_start(lines, cutoff);
        if ls > 0 {
            assert(is_stopper(shorter[ls - 1], cutoff));
            assert(is_stopper(lines[ls - 1], cutoff));
        }
        assert forall|k: int| ls <= k < lines.len() implies !is_stopper(
            #[trigger] lines[k],
            cutoff,
        ) by {
            if k < lines.len() - 1 {
                assert(!is_stopper(shorter[k], cutoff));
            } else {
                assert(lines[k] == lines.last());
            }
        }
    }
}

/// A position after which nothing stops the scan, and whose predecessor
/// stops it (or which is the very start), is where the listing begins.
pub proof fn lemma_list_start_at(lines: Seq<Seq<char>>, cutoff: Option<Date>, j: int)
    requires
        0 <= j <= lines.len(),
        forall|k: int| j <= k < lines.len() ==> !is_stopper(#[trigger] lines[k], cutoff),
        j == 0 || is_stopper(lines[j - 1], cutoff),
    ensures
        list_start(lines, cutoff) == j,
    decreases lines.len(),
{
    if lines.len() == 0 {
    } else if j == lines.len() {
        assert(is_stopper(lines.last(), cutoff));
    } else {
        assert(!is_stopper(lines[lines.len() - 1], cutoff));
        let shorter = lines.drop_last();
        assert(forall|k: int| 0 <= k < shorter.len() ==> #[trigger] shorter[k] == lines[k]);
        lemma_list_start_at(shorter, cutoff, j);
    }
}

/// The start date of a record line, where it has one.
pub open spec fn line_start_date(s: Seq<char>) -> Option<Date> {
    match spec_parse_line(s) {
        Some(rv) => match rv.start {
            Some(dt) => Some(dt.date),
            None => None,
        },
        None => None,
    }
}

/// Every record line that the bounded listing includes has a start date at
/// or after the cutoff (records without a start date are always included).
pub proof fn lemma_listing_bounded(lines: Seq<Seq<char>>, c: Date)
    ensures
        forall|k: int|
            list_start(lines, Some(c)) <= k < lines.len() && line_start_date(
                #[trigger] lines[k],
            ) is Some ==> !date_lt(line_start_date(lines[k])->0, c),
{
    lemma_list_start_props(lines, Some(c));
}

/// Dates never decrease along the journal: every pair of dated record
/// lines is in chronological order.
pub open spec fn dates_ascending(lines: Seq<Seq<char>>) -> bool {
    forall|i: int, j: int|
        0 <= i < j < lines.len() && line_start_date(#[trigger] lines[i]) is Some
            && line_start_date(#[trigger] lines[j]) is Some ==> !date_lt(
            line_start_date(lines[j])->0,
            line_start_date(lines[i])->0,
        )
}

/// In a chronologically ordered journal the bounded listing misses
/// nothing: every dated record line before the listing's start is strictly
/// earlier than the cutoff.
pub proof fn lemma_listing_complete(lines: Seq<Seq<char>>, c: Date)
    requires
        dates_ascending(lines),
    ensures
        forall|k: int|
            0 <= k < list_start(lines, Some(c)) && line_start_date(#[trigger] lines[k]) is Some
                ==> date_lt(line_start_date(lines[k])->0, c),
{
    lemma_list_start_props(lines, Some(c));
    let ls = list_start(lines, Some(c));
    if ls > 0 {
        let ds = line_start_date(lines[ls - 1])->0;
        assert(date_lt(ds, c));
        assert forall|k: int|
            0 <= k < ls && line_start_date(#[trigger] lines[k]) is Some implies date_lt(
            line_start_date(lines[k])->0,
            c,
        ) by {
            if k < ls - 1 {
                let dk = line_start_date(lines[k])->0;
                assert(!date_lt(ds, dk));
            }
        }
    }
}

impl Journal {
    /// The backward-bounded listing: scans from the tail backward,
    /// stopping at the first record line dated strictly before the cutoff,
    /// and emits the lines after that point oldest-first; record lines are
    /// re-rendered from their parsed value, raw lines emitted verbatim.
    pub fn list_lines(&self, cutoff: Option<&Date>) -> (r: Vec<String>)
        ensures
            ({
                let cut = match cutoff {
                    Some(c) => Some(*c),
                    None => None,
                };
                let start = list_start(self@, cut);
                &&& r.deep_view().len() == self@.len() - start
                &&& forall|k: int|
                    0 <= k < self@.len() - start ==> #[trigger] r.deep_view()[k] == render_line(
                        self@[start + k],
                    )
            }),
    {
        let ghost lines = self@;
        let ghost cut: Option<Date> = match cutoff {
            Some(c) => Some(*c),
            None => None,
        };
        let n = self.lines.len();
        let mut rev: Vec<String> = Vec::new();
        let mut i: usize = n;
        while i > 0
            invariant
                0 <= i <= n,
                n == lines.len(),
                lines == self@,
                rev.deep_view().len() == n - i,
                forall|k: int| 0 <= k < n - i ==> #[trigger] rev.deep_view()[k] == render_line(
                    lines[n - 1 - k],
                ),
                cut == (match cutoff {
                    Some(c) => Some(*c),
                    None => None,
                }),
                forall|k: int| i <= k < n ==> !is_stopper(#[trigger] lines[k], cut),
            ensures
                i == 0 || is_stopper(lines[i - 1], cut),
            decreases i,
        {
            proof {
                assert(lines[i - 1] == self.lines@[i - 1]@);
            }
            let s = &self.lines[i - 1];
            match Record::from_line(s.as_str()) {
                Some(rec) => {
                    let mut stop = false;
                    if let Some(c) = cutoff {
                        if let Some(st) = &rec.start {
                            if st.date().before(c) {
                                stop = true;
                            }
                        }
                    }
                    if stop {
                        break;
                    }
                    let ghost prev = rev.deep_view();
                    rev.push(rec.to_line());
                    proof {
                        assert(rev.deep_view() =~= prev.push(render_line(lines[i - 1])));
                    }
                    i = i - 1;
                },
                None => {
                    let ghost prev = rev.deep_view();
                    rev.push(s.clone());
                    proof {
                        assert(rev.deep_view() =~= prev.push(render_line(lines[i - 1])));
                    }
                    i = i - 1;
                },
            }
        }
        proof {
            lemma_list_start_at(lines, cut, i as int);
            assert(list_start(lines, cut) == i as int);
        }
        // Reverse the collected lines into oldest-first order.
        let ghost g = rev.deep_view();
        let mut out: Vec<String> = Vec::new();
        loop
            invariant
                rev.deep_view() =~= g.take(g.len() - out.deep_view().len()),
                out.deep_view().len() <= g.len(),
                forall|k: int| 0 <= k < out.deep_view().len() ==> #[trigger] out.deep_view()[k]
                    == g[g.len() - 1 - k],
            ensures
                rev.deep_view().len() == 0,
                out.deep_view().len() == g.len(),
                forall|k: int| 0 <= k < g.len() ==> #[trigger] out.deep_view()[k] == g[g.len() - 1
                    - k],
            decreases rev.deep_view().len(),
        {
            let ghost prev_out = out.deep_view();
            let ghost prev_rev = rev.deep_view();
            match rev.pop() {
                Some(x) => {
                    out.push(x);
                    proof {
                        assert(out.deep_view() =~= prev_out.push(prev_rev.last()));
                        assert(rev.deep_view() =~= g.take(g.len() - out.deep_view().len()));
                    }
                },
                None => {
                    break;
                },
            }
        }
        proof {
            let start = list_start(lines, cut);
            assert(g.len() == lines.len() - start);
            assert forall|k: int| 0 <= k < lines.len() - start implies #[trigger] out.deep_view()[k]
                == render_line(lines[start + k]) by {
                assert(out.deep_view()[k] == g[g.len() - 1 - k]);
                assert(g[g.len() - 1 - k] == render_line(lines[lines.len() - 1 - (g.len() - 1 - k)]));
            }
        }
        out
    }
}

/// With no filters every line counts, and the matching line with `k` lines
/// before it is simply the line at `k`.
pub proof fn lemma_unfiltered_counts(lines: Seq<Seq<char>>)
    ensures
        count_matching(lines, Seq::<Filter>::empty()) == lines.len(),
        forall|k: int| 0 <= k < lines.len() ==> #[trigger] nth_matching(
            lines,
            Seq::<Filter>::empty(),
            k,
        ) == k,
    decreases lines.len(),
{
    let fs = Seq::<Filter>::empty();
    if lines.len() > 0 {
        lemma_unfiltered_counts(lines.drop_last());
        assert(spec_passes_all(fs, lines.last()));
        assert forall|k: int| 0 <= k < lines.len() implies #[trigger] nth_matching(lines, fs, k)
            == k by {
            if k < lines.len() - 1 {
                assert(nth_matching(lines.drop_last(), fs, k) == k);
            }
        }
    }
}

/// Unfiltered addressing law: a non-negative offset names the line at that
/// index; `-k` names the k-th line from the end; offsets beyond either end
/// resolve to nothing.
pub proof fn lemma_resolve_unfiltered(lines: Seq<Seq<char>>, offset: int)
    ensures
        resolve_offset(lines, Seq::<Filter>::empty(), offset) == (if 0 <= offset < lines.len() {
            Some(offset)
        } else if -(lines.len() as int) <= offset < 0 {
            Some(lines.len() + offset)
        } else {
            None::<int>
        }),
{
    lemma_unfiltered_counts(lines);
}


/// Backward addressing law: in a journal of `n` lines and no filters,
/// offset `-1` resolves to the last-appended line, `-(n)` to the first,
/// and `-(n+1)` to nothing.
pub proof fn lemma_backward_addressing(lines: Seq<Seq<char>>)
    requires
        lines.len() >= 1,
    ensures
        resolve_offset(lines, Seq::<Filter>::empty(), -1) == Some(lines.len() - 1),
        resolve_offset(lines, Seq::<Filter>::empty(), -(lines.len() as int)) == Some(0int),
        resolve_offset(lines, Seq::<Filter>::empty(), -(lines.len() as int) - 1) is None,
{
    lemma_resolve_unfiltered(lines, -1);
    lemma_resolve_unfiltered(lines, -(lines.len() as int));
    lemma_resolve_unfiltered(lines, -(lines.len() as int) - 1);
}

/// Identity-update law: rewriting a line that the journal itself wrote
/// with the serialization of its own parse leaves every byte unchanged.
pub proof fn lemma_update_identity(lines: Seq<Seq<char>>, i: int, rv: RecordV)
    requires
        0 <= i < lines.len(),
        lines[i] == spec_serialize(rv),
        rv.wf(),
    ensures
        spec_parse_line(lines[i]) == Some(rv),
        lines.update(i, spec_serialize(rv)) == lines,
{
    lemma_line_roundtrip(rv);
    assert(lines.update(i, spec_serialize(rv)) =~= lines);
}

/// Removal law: deleting the line at `i` shrinks the journal by exactly
/// one line, leaves every earlier line in place, and shifts every later
/// line up by one, preserving their relative order.
pub proof fn lemma_remove_shape(lines: Seq<Seq<char>>, i: int)
    requires
        0 <= i < lines.len(),
    ensures
        lines.remove(i).len() == lines.len() - 1,
        forall|k: int| 0 <= k < i ==> #[trigger] lines.remove(i)[k] == lines[k],
        forall|k: int| i <= k < lines.len() - 1 ==> #[trigger] lines.remove(i)[k] == lines[k + 1],
{
}

} // verus!
