//! One tracked interval and its journal-line text form.
//!
//! A record line has the fixed, whitespace- and bracket-delimited shape
//! `[<start-datetime>, <activity-minutes> (<rest-minutes>)] <note>`:
//! an optional 19-character start datetime, an optional activity minute
//! count, an optional rest minute count in parentheses (the whole
//! `<act> (<rest>)` group is omitted when both are absent), and the free
//! text note after the closing bracket. Text that does not match this
//! grammar is not a record line.

use vstd::prelude::*;

use crate::numtext::{
    dec_i64, first_index_of, lemma_dec_digits_val, lemma_first_index_props, lemma_i64_roundtrip,
    parse_i64_range, spec_parse_i64,
};
use crate::time::{
    dt_chars, lemma_dt_roundtrip, minutes_between, minutes_between_exec, parse_dt_at,
    spec_parse_dt, DateTime,
};

verus! {

/// The mathematical value of a record: start instant, worked and rested
/// minute counts, and the note text.
pub struct RecordV {
    pub start: Option<DateTime>,
    pub activity: Option<int>,
    pub rest: Option<int>,
    pub note: Seq<char>,
}

impl RecordV {
    /// Valid field ranges: a well-formed start instant and minute counts
    /// that fit a 64-bit signed integer.
    pub open spec fn wf(self) -> bool {
        &&& (self.start matches Some(dt) ==> dt.wf())
        &&& (self.activity matches Some(v) ==> -0x8000_0000_0000_0000 <= v
            <= 0x7fff_ffff_ffff_ffff)
        &&& (self.rest matches Some(v) ==> -0x8000_0000_0000_0000 <= v <= 0x7fff_ffff_ffff_ffff)
    }
}

/// One tracked interval: start time, worked minutes, rested minutes, and a
/// free-text note.
pub struct Record {
    pub start: Option<DateTime>,
    pub activity: Option<i64>,
    pub rest: Option<i64>,
    pub note: String,
}

pub open spec fn opt_i64_view(o: Option<i64>) -> Option<int> {
    match o {
        Some(v) => Some(v as int),
        None => None,
    }
}

impl View for Record {
    type V = RecordV;

    open spec fn view(&self) -> RecordV {
        RecordV {
            start: self.start,
            activity: opt_i64_view(self.activity),
            rest: opt_i64_view(self.rest),
            note: self.note@,
        }
    }
}

impl Record {
    pub open spec fn wf(self) -> bool {
        self@.wf()
    }
}

/// The text of the optional start field.
pub open spec fn start_chars(o: Option<DateTime>) -> Seq<char> {
    match o {
        Some(dt) => dt_chars(dt),
        None => Seq::empty(),
    }
}

/// The text of an optional minute count: empty when absent.
pub open spec fn opt_i64_chars(o: Option<int>) -> Seq<char> {
    match o {
        Some(v) => dec_i64(v),
        None => Seq::empty(),
    }
}

/// The text of the duration group: empty when both counts are absent, else
/// `<act> (<rest>)` with absent counts rendered as empty fields.
pub open spec fn meta_chars(rv: RecordV) -> Seq<char> {
    if rv.activity is None && rv.rest is None {
        Seq::empty()
    } else {
        opt_i64_chars(rv.activity) + seq![' ', '('] + opt_i64_chars(rv.rest) + seq![')']
    }
}

/// The full journal-line text of a record.
pub open spec fn spec_serialize(rv: RecordV) -> Seq<char> {
    seq!['['] + start_chars(rv.start) + seq![',', ' '] + meta_chars(rv) + seq![']'] + (
    if rv.note.len() == 0 {
        Seq::<char>::empty()
    } else {
        seq![' '] + rv.note
    })
}

/// An optional minute field: empty text is an absent count.
pub open spec fn spec_parse_opt_i64(s: Seq<char>) -> Option<Option<int>> {
    if s.len() == 0 {
        Some(None)
    } else {
        match spec_parse_i64(s) {
            Some(v) => Some(Some(v)),
            None => None,
        }
    }
}

/// The duration group between `", "` and `"]"`: empty, or
/// `<act> (<rest>)` split at the first space.
pub open spec fn spec_parse_meta(m: Seq<char>) -> Option<(Option<int>, Option<int>)> {
    if m.len() == 0 {
        Some((None, None))
    } else {
        let sp = first_index_of(m, ' ');
        if sp >= 0 && sp + 2 <= m.len() - 1 && m[sp + 1] == '(' && m[m.len() - 1] == ')' {
            match (spec_parse_opt_i64(m.take(sp)), spec_parse_opt_i64(
                m.subrange(sp + 2, m.len() - 1),
            )) {
                (Some(a), Some(r)) => Some((a, r)),
                _ => None,
            }
        } else {
            None
        }
    }
}

/// Parses one line of journal text as a record; `None` when the line does
/// not match the record grammar.
pub open spec fn spec_parse_line(s: Seq<char>) -> Option<RecordV> {
    if s.len() == 0 || s[0] != '[' {
        None
    } else {
        let close = first_index_of(s, ']');
        if close == -1 {
            None
        } else {
            let head = s.subrange(1, close);
            let tail = s.subrange(close + 1, s.len() as int);
            let note: Option<Seq<char>> = if tail.len() == 0 {
                Some(Seq::empty())
            } else if tail[0] == ' ' {
                Some(tail.skip(1))
            } else {
                None
            };
            let start_meta: Option<(Option<DateTime>, Seq<char>)> = if head.len() >= 2 && head[0]
                == ',' && head[1] == ' ' {
                Some((None, head.skip(2)))
            } else if head.len() >= 21 && head[19] == ',' && head[20] == ' ' {
                match spec_parse_dt(head.take(19)) {
                    Some(dt) => Some((Some(dt), head.skip(21))),
                    None => None,
                }
            } else {
                None
            };
            match (start_meta, note) {
                (Some((start, meta)), Some(note)) => match spec_parse_meta(meta) {
                    Some((activity, rest)) => Some(RecordV { start, activity, rest, note }),
                    None => None,
                },
                _ => None,
            }
        }
    }
}

/// Characters that can appear in an optional minute field: digits and the
/// sign.
proof fn lemma_opt_i64_chars_class(o: Option<int>)
    ensures
        forall|i: int| 0 <= i < opt_i64_chars(o).len() ==> crate::numtext::is_digit_char(
            #[trigger] opt_i64_chars(o)[i],
        ) || opt_i64_chars(o)[i] == '-',
{
    if o is Some {
        crate::numtext::lemma_dec_i64_class(o->0);
    }
}

/// Rendering the duration group of a well-formed record and parsing it back
/// yields the same counts, and the group never holds a closing bracket,
/// space-before-parenthesis aside.
proof fn lemma_meta_roundtrip(rv: RecordV)
    requires
        rv.wf(),
    ensures
        spec_parse_meta(meta_chars(rv)) == Some((rv.activity, rv.rest)),
        forall|i: int| 0 <= i < meta_chars(rv).len() ==> #[trigger] meta_chars(rv)[i] != ']',
{
    let m = meta_chars(rv);
    lemma_opt_i64_chars_class(rv.activity);
    lemma_opt_i64_chars_class(rv.rest);
    if rv.activity is None && rv.rest is None {
    } else {
        let a = opt_i64_chars(rv.activity);
        let r = opt_i64_chars(rv.rest);
        assert(m =~= a + seq![' ', '('] + r + seq![')']);
        assert(m.len() == a.len() + 2 + r.len() + 1);
        assert(forall|i: int| 0 <= i < a.len() ==> #[trigger] m[i] == a[i]);
        assert(m[a.len() as int] == ' ');
        assert(m[a.len() as int + 1] == '(');
        assert(forall|i: int| 0 <= i < r.len() ==> #[trigger] m[a.len() + 2 + i] == r[i]);
        assert(m[m.len() - 1] == ')');
        assert forall|j: int| 0 <= j < a.len() implies m[j] != ' ' by {
            assert(crate::numtext::is_digit_char(a[j]) || a[j] == '-');
        }
        crate::numtext::lemma_first_index_is(m, ' ', a.len() as int);
        assert(m.take(a.len() as int) =~= a);
        assert(m.subrange(a.len() as int + 2, m.len() as int - 1) =~= r);
        match rv.activity {
            None => {
                assert(a.len() == 0);
            },
            Some(v) => {
                lemma_i64_roundtrip(v);
                assert(a.len() >= 1) by {
                    lemma_dec_digits_val(if v < 0 {
                        (-v) as nat
                    } else {
                        v as nat
                    });
                }
            },
        }
        match rv.rest {
            None => {
                assert(r.len() == 0);
            },
            Some(v) => {
                lemma_i64_roundtrip(v);
                assert(r.len() >= 1) by {
                    lemma_dec_digits_val(if v < 0 {
                        (-v) as nat
                    } else {
                        v as nat
                    });
                }
            },
        }
        assert(spec_parse_opt_i64(a) == Some(rv.activity));
        assert(spec_parse_opt_i64(r) == Some(rv.rest));
    }
}

/// Round trip: serializing a well-formed record and parsing the line back
/// yields the same record value.
#[verifier::rlimit(100)]
#[verifier::spinoff_prover]
pub proof fn lemma_line_roundtrip(rv: RecordV)
    requires
        rv.wf(),
    ensures
        spec_parse_line(spec_serialize(rv)) == Some(rv),
{
    let st = start_chars(rv.start);
    let m = meta_chars(rv);
    let s = spec_serialize(rv);
    let notepart: Seq<char> = if rv.note.len() == 0 {
        Seq::empty()
    } else {
        seq![' '] + rv.note
    };
    lemma_meta_roundtrip(rv);
    if rv.start is Some {
        lemma_dt_roundtrip(rv.start->0);
    }
    assert(s =~= seq!['['] + st + seq![',', ' '] + m + seq![']'] + notepart);
    let close: int = 1 + st.len() as int + 2 + m.len() as int;
    assert(s[0] == '[');
    assert(forall|i: int| 0 <= i < st.len() ==> #[trigger] s[1 + i] == st[i]);
    assert(s[1 + st.len() as int] == ',');
    assert(s[1 + st.len() as int + 1] == ' ');
    assert(forall|i: int| 0 <= i < m.len() ==> #[trigger] s[3 + st.len() + i] == m[i]);
    assert(s[close as int] == ']');
    assert forall|j: int| 0 <= j < close implies s[j] != ']' by {
        if 1 <= j < 1 + st.len() {
            let i = j - 1;
            assert(st[i] == s[j]);
            assert(crate::numtext::is_digit_char(st[i]) || st[i] == '-' || st[i] == ' ' || st[i]
                == ':');
        } else if 3 + st.len() <= j < close {
            assert(m[j - 3 - st.len()] != ']');
        }
    }
    crate::numtext::lemma_first_index_is(s, ']', close as int);
    let head = s.subrange(1, close as int);
    let tail = s.subrange(close + 1, s.len() as int);
    assert(head =~= st + seq![',', ' '] + m);
    assert(tail =~= notepart);
    if rv.note.len() == 0 {
        assert(tail.len() == 0);
    } else {
        assert(tail[0] == ' ');
        assert(tail.skip(1) =~= rv.note);
    }
    match rv.start {
        None => {
            assert(head[0] == ',');
            assert(head[1] == ' ');
            assert(head.skip(2) =~= m);
        },
        Some(dt) => {
            assert(head.len() == 19 + 2 + m.len());
            assert(forall|i: int| 0 <= i < 19 ==> #[trigger] head[i] == dt_chars(dt)[i]);
            assert(crate::numtext::is_digit_char(head[0]));
            assert(head[0] != ',');
            assert(head[19] == ',');
            assert(head[20] == ' ');
            assert(head.take(19) =~= dt_chars(dt));
            assert(head.skip(21) =~= m);
        },
    }
    let parsed = spec_parse_line(s);
    assert(parsed is Some);
    let p = parsed->0;
    assert(p.start == rv.start);
    assert(p.activity == rv.activity);
    assert(p.rest == rv.rest);
    assert(p.note =~= rv.note);
}

/// Saturation of a mathematical integer into the `i64` range.
pub open spec fn sat_i64(x: int) -> int {
    if x > 0x7fff_ffff_ffff_ffff {
        0x7fff_ffff_ffff_ffff
    } else if x < -0x8000_0000_0000_0000 {
        -0x8000_0000_0000_0000
    } else {
        x
    }
}

/// Addition saturating at the `i64` range.
pub fn sat_add_i64(a: i64, b: i64) -> (r: i64)
    ensures
        r == sat_i64(a + b),
{
    if b >= 0 {
        if a <= i64::MAX - b {
            a + b
        } else {
            i64::MAX
        }
    } else {
        if a >= i64::MIN - b {
            a + b
        } else {
            i64::MIN
        }
    }
}

/// Subtraction saturating at the `i64` range.
fn sat_sub_i64(a: i64, b: i64) -> (r: i64)
    ensures
        r == sat_i64(a - b),
{
    if b >= 0 {
        if a >= i64::MIN + b {
            a - b
        } else {
            i64::MIN
        }
    } else {
        if a <= i64::MAX + b {
            a - b
        } else {
            i64::MAX
        }
    }
}

pub open spec fn opt_or_zero(o: Option<int>) -> int {
    match o {
        Some(v) => v,
        None => 0,
    }
}

impl Record {
    /// An open record started at the current local time: no worked or rested
    /// minutes yet and an empty note. The start is absent when the clock
    /// reports an instant outside the journal's text format.
    pub fn now() -> (r: Record)
        ensures
            r.wf(),
            r@.activity is None,
            r@.rest is None,
            r@.note == Seq::<char>::empty(),
    {
        Record {
            start: crate::time::now_local(),
            activity: None,
            rest: None,
            note: String::new(),
        }
    }

    /// Closes the interval at `now`: the worked minutes become the whole
    /// span from `start` to `now` minus the rested minutes, saturating at
    /// the `i64` range. A record without a start is left unchanged.
    pub fn update_activity(&mut self, now: &DateTime)
        requires
            old(self).wf(),
            now.wf(),
        ensures
            final(self).wf(),
            final(self).start == old(self).start,
            final(self).rest == old(self).rest,
            final(self).note == old(self).note,
            match old(self).start {
                None => final(self).activity == old(self).activity,
                Some(st) => final(self)@.activity == Some(
                    sat_i64(minutes_between(st, *now) - opt_or_zero(old(self)@.rest)),
                ),
            },
    {
        match self.start {
            None => {},
            Some(st) => {
                let el = minutes_between_exec(&st, now);
                let rest0: i64 = match self.rest {
                    Some(r) => r,
                    None => 0,
                };
                self.activity = Some(sat_sub_i64(el, rest0));
            },
        }
    }

    /// Resumes the interval at `now`: the rested minutes become the whole
    /// span from `start` to `now` minus the worked minutes, saturating at
    /// the `i64` range. A record without a start is left unchanged.
    pub fn update_rest(&mut self, now: &DateTime)
        requires
            old(self).wf(),
            now.wf(),
        ensures
            final(self).wf(),
            final(self).start == old(self).start,
            final(self).activity == old(self).activity,
            final(self).note == old(self).note,
            match old(self).start {
                None => final(self).rest == old(self).rest,
                Some(st) => final(self)@.rest == Some(
                    sat_i64(minutes_between(st, *now) - opt_or_zero(old(self)@.activity)),
                ),
            },
    {
        match self.start {
            None => {},
            Some(st) => {
                let el = minutes_between_exec(&st, now);
                let act0: i64 = match self.activity {
                    Some(a) => a,
                    None => 0,
                };
                self.rest = Some(sat_sub_i64(el, act0));
            },
        }
    }

    /// Renders the record as one journal line.
    #[verifier::rlimit(100)]
    #[verifier::spinoff_prover]
    pub fn to_line(&self) -> (s: String)
        requires
            self.wf(),
        ensures
            s@ == spec_serialize(self@),
    {
        proof {
            reveal_strlit("[");
            reveal_strlit(", ");
            reveal_strlit(" (");
            reveal_strlit(")");
            reveal_strlit("]");
            reveal_strlit(" ");
        }
        let mut out = String::new();
        out.append("[");
        match self.start {
            Some(dt) => crate::time::append_dt(&mut out, &dt),
            None => {},
        }
        out.append(", ");
        if self.activity.is_some() || self.rest.is_some() {
            match self.activity {
                Some(v) => crate::numtext::append_i64(&mut out, v),
                None => {},
            }
            out.append(" (");
            match self.rest {
                Some(v) => crate::numtext::append_i64(&mut out, v),
                None => {},
            }
            out.append(")");
        }
        out.append("]");
        if !self.note.as_str().is_empty() {
            out.append(" ");
            out.append(self.note.as_str());
        }
        proof {
            assert(out@ =~= spec_serialize(self@));
        }
        out
    }

    /// Parses one line of journal text as a record.
    pub fn from_line(s: &str) -> (r: Option<Record>)
        ensures
            match spec_parse_line(s@) {
                Some(rv) => r matches Some(rec) && rec@ == rv && rec.wf(),
                None => r is None,
            },
    {
        let len = s.unicode_len();
        if len == 0 || s.get_char(0) != '[' {
            return None;
        }
        proof {
            assert(s@.skip(0) =~= s@);
        }
        let close = match crate::numtext::find_char_from(s, 0, ']') {
            None => {
                return None;
            },
            Some(c) => c,
        };
        let ghost head = s@.subrange(1, close as int);
        let ghost tail = s@.subrange(close as int + 1, s@.len() as int);
        proof {
            assert(forall|i: int| 0 <= i < head.len() ==> #[trigger] head[i] == s@[1 + i]);
            assert(forall|i: int| 0 <= i < tail.len() ==> #[trigger] tail[i] == s@[close + 1 + i]);
        }
        let note: String = if close + 1 == len {
            let n = String::new();
            proof {
                assert(tail.len() == 0);
            }
            n
        } else if s.get_char(close + 1) == ' ' {
            let sub = s.substring_char(close + 2, len);
            proof {
                assert(tail[0] == ' ');
                assert(sub@ =~= tail.skip(1));
            }
            sub.to_owned()
        } else {
            proof {
                assert(tail[0] != ' ');
            }
            return None;
        };
        let start: Option<DateTime>;
        let meta_from: usize;
        if close >= 3 && s.get_char(1) == ',' && s.get_char(2) == ' ' {
            proof {
                assert(head.len() >= 2 && head[0] == ',' && head[1] == ' ');
            }
            start = None;
            meta_from = 3;
        } else if close >= 22 && s.get_char(20) == ',' && s.get_char(21) == ' ' {
            proof {
                assert(head.len() >= 21 && head[19] == ',' && head[20] == ' ');
                assert(head.take(19) =~= s@.subrange(1, 20));
            }
            match crate::time::parse_dt_at(s, 1) {
                Some(dt) => {
                    start = Some(dt);
                    meta_from = 22;
                },
                None => {
                    return None;
                },
            }
        } else {
            return None;
        }
        let ghost meta = if start is None { head.skip(2) } else { head.skip(21) };
        proof {
            assert(meta =~= s@.subrange(meta_from as int, close as int));
        }
        match parse_meta_range(s, meta_from, close) {
            None => None,
            Some((activity, rest)) => {
                let rec = Record { start, activity, rest, note };
                proof {
                    let rv = spec_parse_line(s@)->0;
                    assert(rec@.note =~= rv.note);
                }
                Some(rec)
            },
        }
    }
}

/// Parses the duration group `s[from..to]` between `", "` and `"]"`.
fn parse_meta_range(s: &str, from: usize, to: usize) -> (r: Option<(Option<i64>, Option<i64>)>)
    requires
        from <= to <= s@.len(),
    ensures
        match spec_parse_meta(s@.subrange(from as int, to as int)) {
            Some((a, rr)) => r matches Some(p) && opt_i64_view(p.0) == a && opt_i64_view(p.1)
                == rr,
            None => r is None,
        },
{
    let ghost m = s@.subrange(from as int, to as int);
    proof {
        assert(forall|i: int| 0 <= i < m.len() ==> #[trigger] m[i] == s@[from + i]);
    }
    if from == to {
        return Some((None, None));
    }
    let ghost sk = s@.skip(from as int);
    proof {
        assert(forall|j: int| 0 <= j < sk.len() ==> #[trigger] sk[j] == s@[from + j]);
    }
    let spabs = match crate::numtext::find_char_from(s, from, ' ') {
        None => {
            proof {
                crate::numtext::lemma_first_index_props(sk, ' ');
                crate::numtext::lemma_first_index_props(m, ' ');
                let fi = first_index_of(m, ' ');
                if fi != -1 {
                    assert(m[fi] == ' ');
                    assert(sk[fi] == s@[from + fi]);
                    assert(sk[fi] != ' ');
                }
            }
            return None;
        },
        Some(i) => i,
    };
    if spabs >= to {
        proof {
            crate::numtext::lemma_first_index_props(sk, ' ');
            crate::numtext::lemma_first_index_props(m, ' ');
            let fi = first_index_of(m, ' ');
            if fi != -1 {
                assert(m[fi] == ' ');
                assert(fi < spabs - from);
                assert(sk[fi] == s@[from + fi]);
                assert(sk[fi] != ' ');
            }
        }
        return None;
    }
    proof {
        crate::numtext::lemma_first_index_props(sk, ' ');
        assert(m[spabs - from] == ' ');
        assert forall|j: int| 0 <= j < spabs - from implies m[j] != ' ' by {
            assert(sk[j] != ' ');
            assert(m[j] == s@[from + j]);
        }
    }
    proof {
        crate::numtext::lemma_first_index_is(m, ' ', spabs - from);
    }
    if !(to >= 3 && spabs <= to - 3 && s.get_char(spabs + 1) == '(' && s.get_char(to - 1) == ')') {
        return None;
    }
    proof {
        assert(m[spabs - from + 1] == '(');
        assert(m[m.len() - 1] == ')');
        assert(m.take(spabs - from) =~= s@.subrange(from as int, spabs as int));
        assert(m.subrange(spabs - from + 2, m.len() - 1) =~= s@.subrange(
            spabs as int + 2,
            to as int - 1,
        ));
    }
    let activity: Option<i64> = if spabs == from {
        None
    } else {
        match crate::numtext::parse_i64_range(s, from, spabs) {
            Some(v) => Some(v),
            None => {
                return None;
            },
        }
    };
    let rest: Option<i64> = if spabs + 2 == to - 1 {
        None
    } else {
        match crate::numtext::parse_i64_range(s, spabs + 2, to - 1) {
            Some(v) => Some(v),
            None => {
                return None;
            },
        }
    };
    Some((activity, rest))
}

/// A serialized record is a single line: it contains no newline when the
/// note contains none, so the journal's file round trip keeps it intact.
#[verifier::rlimit(100)]
#[verifier::spinoff_prover]
pub proof fn lemma_serialize_single_line(rv: RecordV)
    requires
        rv.wf(),
        forall|i: int| 0 <= i < rv.note.len() ==> rv.note[i] != '\n',
    ensures
        forall|i: int| 0 <= i < spec_serialize(rv).len() ==> #[trigger] spec_serialize(rv)[i]
            != '\n',
{
    let st = start_chars(rv.start);
    let m = meta_chars(rv);
    let s = spec_serialize(rv);
    let notepart: Seq<char> = if rv.note.len() == 0 {
        Seq::empty()
    } else {
        seq![' '] + rv.note
    };
    lemma_opt_i64_chars_class(rv.activity);
    lemma_opt_i64_chars_class(rv.rest);
    if rv.start is Some {
        lemma_dt_roundtrip(rv.start->0);
    }
    assert(s =~= seq!['['] + st + seq![',', ' '] + m + seq![']'] + notepart);
    assert forall|i: int| 0 <= i < s.len() implies #[trigger] s[i] != '\n' by {
        let a = 1 + st.len() as int;
        let b = a + 2 + m.len() as int;
        if 1 <= i < a {
            let c = st[i - 1];
            assert(crate::numtext::is_digit_char(c) || c == '-' || c == ' ' || c == ':');
        } else if a + 2 <= i < b {
            let c = m[i - (a + 2)];
            if !(rv.activity is None && rv.rest is None) {
                let x = opt_i64_chars(rv.activity);
                let y = opt_i64_chars(rv.rest);
                assert(m =~= x + seq![' ', '('] + y + seq![')']);
                if 0 <= i - (a + 2) < x.len() {
                    assert(crate::numtext::is_digit_char(c) || c == '-');
                } else if x.len() + 2 <= i - (a + 2) < x.len() + 2 + y.len() {
                    assert(c == y[i - (a + 2) - x.len() - 2]);
                    assert(crate::numtext::is_digit_char(c) || c == '-');
                }
            }
        } else if i > b && rv.note.len() > 0 {
            assert(s[i] == notepart[i - b - 1]);
            if i - b - 1 >= 1 {
                assert(s[i] == rv.note[i - b - 2]);
            }
        }
    }
}

} // verus!
