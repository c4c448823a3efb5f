//! The tagged output of `p4 -Ztag` and its parser.
//!
//! Tagged output is a sequence of records separated by blank lines; each
//! record is a sequence of lines `... key value`.

use vstd::prelude::*;
use crate::text::{
    all_white_space, chars_of, lemma_trim_padding, skip_white_space, string_of, trim,
    trim_end_index, trim_start, word_end, word_len,
};

verus! {

/// A record: the fields of one object, each key at most once.
pub type RecordMap = Map<Seq<char>, Seq<char>>;

/// The lines of `s`: the pieces between `'\n'` characters, the last one
/// included even when it is empty. Parsing trims every line, and a final
/// empty line only closes the record that the end of the input closes
/// anyway, so these lines act as those of `str::lines` do (which drops the
/// `'\r'` of a `"\r\n"` and a final empty line).
pub open spec fn lines_of(s: Seq<char>) -> Seq<Seq<char>>
    decreases s.len(),
{
    if s.len() == 0 {
        seq![Seq::<char>::empty()]
    } else {
        let before = lines_of(s.drop_last());
        if s.last() == '\n' {
            before.push(Seq::<char>::empty())
        } else {
            before.update(before.len() - 1, before.last().push(s.last()))
        }
    }
}

/// Whether a line separates records: nothing but whitespace.
pub open spec fn is_blank_line(line: Seq<char>) -> bool {
    trim(line).len() == 0
}

/// The field that a trimmed line holds: `...`, optional whitespace, the key
/// (a word), one whitespace character and the value, which is trimmed.
/// `None` where the line does not start with `...` or holds no key.
pub open spec fn field_of_trimmed(t: Seq<char>) -> Option<(Seq<char>, Seq<char>)> {
    if t.len() >= 3 && t[0] == '.' && t[1] == '.' && t[2] == '.' {
        let rest = trim_start(t.subrange(3, t.len() as int));
        let k = word_len(rest) as int;
        let key = rest.subrange(0, k);
        let value = if k < rest.len() {
            trim(rest.subrange(k + 1, rest.len() as int))
        } else {
            Seq::<char>::empty()
        };
        if key.len() > 0 {
            Some((key, value))
        } else {
            None
        }
    } else {
        None
    }
}

/// The field that a line holds, if any.
pub open spec fn field_of_line(line: Seq<char>) -> Option<(Seq<char>, Seq<char>)> {
    field_of_trimmed(trim(line))
}

/// One line's effect on the parser state (finished records, current record):
/// a blank line closes the current record where it holds a field; a field
/// line sets the field in the current record; any other line is ignored.
pub open spec fn ztag_step(state: (Seq<RecordMap>, RecordMap), line: Seq<char>) -> (
    Seq<RecordMap>,
    RecordMap,
) {
    if is_blank_line(line) {
        if state.1 == Map::<Seq<char>, Seq<char>>::empty() {
            state
        } else {
            (state.0.push(state.1), Map::empty())
        }
    } else {
        match field_of_line(line) {
            Some(f) => (state.0, state.1.insert(f.0, f.1)),
            None => state,
        }
    }
}

/// The parser state after the given lines, from no records.
pub open spec fn ztag_fold(lines: Seq<Seq<char>>) -> (Seq<RecordMap>, RecordMap)
    decreases lines.len(),
{
    if lines.len() == 0 {
        (Seq::empty(), Map::empty())
    } else {
        ztag_step(ztag_fold(lines.drop_last()), lines.last())
    }
}

/// The records of a parser state at the end of the input: the current
/// record is closed where it holds a field.
pub open spec fn ztag_finish(state: (Seq<RecordMap>, RecordMap)) -> Seq<RecordMap> {
    if state.1 == Map::<Seq<char>, Seq<char>>::empty() {
        state.0
    } else {
        state.0.push(state.1)
    }
}

/// The records that the tagged output `s` holds.
pub open spec fn ztag_records(s: Seq<char>) -> Seq<RecordMap> {
    ztag_finish(ztag_fold(lines_of(s)))
}

proof fn lemma_fold_not_empty(lines: Seq<Seq<char>>)
    ensures
        forall|i: int|
            0 <= i < ztag_fold(lines).0.len() ==> #[trigger] ztag_fold(lines).0[i] != Map::<
                Seq<char>,
                Seq<char>,
            >::empty(),
    decreases lines.len(),
{
    if lines.len() > 0 {
        lemma_fold_not_empty(lines.drop_last());
        let st = ztag_fold(lines.drop_last());
        let next = ztag_fold(lines);
        assert(next == ztag_step(st, lines.last()));
        assert forall|i: int| 0 <= i < next.0.len() implies #[trigger] next.0[i] != Map::<
            Seq<char>,
            Seq<char>,
        >::empty() by {
            if i < st.0.len() {
                assert(next.0[i] == st.0[i]);
            }
        }
    }
}

/// No record of tagged output is empty: a record is only closed where it
/// holds a field.
pub proof fn lemma_records_not_empty(s: Seq<char>)
    ensures
        forall|i: int|
            0 <= i < ztag_records(s).len() ==> #[trigger] ztag_records(s)[i] != Map::<
                Seq<char>,
                Seq<char>,
            >::empty(),
{
    lemma_fold_not_empty(lines_of(s));
}

/// A final line ending changes nothing: output that ends in `'\n'` holds
/// the same records as the same output without it.
pub proof fn lemma_final_newline(s: Seq<char>)
    ensures
        ztag_records(s.push('\n')) == ztag_records(s),
{
    let t = s.push('\n');
    assert(t.drop_last() =~= s);
    let e = Seq::<char>::empty();
    let lines = lines_of(s);
    assert(lines_of(t) == lines.push(e));
    assert(lines.push(e).drop_last() =~= lines);
    assert(trim(e) =~= e);
    assert(is_blank_line(e));
    assert(ztag_fold(lines.push(e)) == ztag_step(ztag_fold(lines), e));
}

/// Whitespace before and after a line changes nothing of what the line
/// does.
pub proof fn lemma_line_padding(
    state: (Seq<RecordMap>, RecordMap),
    pre: Seq<char>,
    line: Seq<char>,
    post: Seq<char>,
)
    requires
        all_white_space(pre),
        all_white_space(post),
    ensures
        ztag_step(state, pre + line + post) == ztag_step(state, line),
{
    lemma_trim_padding(pre, line, post);
}

/// `s` with each `'\n'` preceded by `'\r'`: the same text with CRLF line
/// endings.
pub open spec fn with_crlf(s: Seq<char>) -> Seq<char>
    decreases s.len(),
{
    if s.len() == 0 {
        s
    } else if s.last() == '\n' {
        with_crlf(s.drop_last()).push('\r').push('\n')
    } else {
        with_crlf(s.drop_last()).push(s.last())
    }
}

/// Lines that are `lines`, each but the last possibly with one `'\r'` more
/// at its end.
spec fn lines_up_to_cr(padded: Seq<Seq<char>>, lines: Seq<Seq<char>>) -> bool {
    &&& padded.len() == lines.len()
    &&& forall|i: int|
        0 <= i < lines.len() ==> #[trigger] padded[i] == lines[i] || padded[i] == lines[i].push(
            '\r',
        )
}

proof fn lemma_lines_not_empty(s: Seq<char>)
    ensures
        lines_of(s).len() >= 1,
    decreases s.len(),
{
    if s.len() > 0 {
        lemma_lines_not_empty(s.drop_last());
    }
}

proof fn lemma_lines_with_crlf(s: Seq<char>)
    ensures
        lines_up_to_cr(lines_of(with_crlf(s)), lines_of(s)),
        lines_of(with_crlf(s)).last() == lines_of(s).last(),
    decreases s.len(),
{
    if s.len() > 0 {
        let w = with_crlf(s.drop_last());
        let before = lines_of(s.drop_last());
        lemma_lines_with_crlf(s.drop_last());
        lemma_lines_not_empty(s.drop_last());
        lemma_lines_not_empty(w);
        let wl = lines_of(w);
        if s.last() == '\n' {
            let w1 = w.push('\r');
            assert(w1.drop_last() =~= w);
            assert(w1.push('\n').drop_last() =~= w1);
            let l1 = lines_of(w1);
            assert(l1 == wl.update(wl.len() - 1, wl.last().push('\r')));
            assert(lines_of(with_crlf(s)) == l1.push(Seq::<char>::empty()));
            assert(lines_of(s) == before.push(Seq::<char>::empty()));
            assert forall|i: int| 0 <= i < lines_of(s).len() implies #[trigger] lines_of(
                with_crlf(s),
            )[i] == lines_of(s)[i] || lines_of(with_crlf(s))[i] == lines_of(s)[i].push('\r') by {
                if i < before.len() - 1 {
                    assert(lines_of(with_crlf(s))[i] == wl[i]);
                } else if i == before.len() - 1 {
                    assert(lines_of(with_crlf(s))[i] == wl.last().push('\r'));
                }
            }
        } else {
            let c = s.last();
            assert(w.push(c).drop_last() =~= w);
            assert(lines_of(with_crlf(s)) == wl.update(wl.len() - 1, wl.last().push(c)));
            assert(lines_of(s) == before.update(before.len() - 1, before.last().push(c)));
            assert forall|i: int| 0 <= i < lines_of(s).len() implies #[trigger] lines_of(
                with_crlf(s),
            )[i] == lines_of(s)[i] || lines_of(with_crlf(s))[i] == lines_of(s)[i].push('\r') by {
                if i < before.len() - 1 {
                    assert(lines_of(with_crlf(s))[i] == wl[i]);
                    assert(lines_of(s)[i] == before[i]);
                }
            }
        }
    }
}

proof fn lemma_fold_up_to_cr(padded: Seq<Seq<char>>, lines: Seq<Seq<char>>)
    requires
        lines_up_to_cr(padded, lines),
    ensures
        ztag_fold(padded) == ztag_fold(lines),
    decreases lines.len(),
{
    if lines.len() > 0 {
        let n = lines.len() - 1;
        assert(lines_up_to_cr(padded.drop_last(), lines.drop_last())) by {
            assert forall|i: int| 0 <= i < lines.drop_last().len() implies #[trigger] padded.drop_last()[i]
                == lines.drop_last()[i] || padded.drop_last()[i] == lines.drop_last()[i].push('\r') by {
                assert(padded[i] == lines[i] || padded[i] == lines[i].push('\r'));
            }
        }
        lemma_fold_up_to_cr(padded.drop_last(), lines.drop_last());
        let st = ztag_fold(lines.drop_last());
        assert(padded[n] == lines[n] || padded[n] == lines[n].push('\r'));
        if padded[n] != lines[n] {
            let e = Seq::<char>::empty();
            assert(all_white_space(seq!['\r']));
            assert(e + lines[n] + seq!['\r'] =~= lines[n].push('\r'));
            lemma_line_padding(st, e, lines[n], seq!['\r']);
        }
    }
}

/// CRLF line endings change nothing: output whose lines end in `"\r\n"`
/// holds the same records as the same output with `'\n'` alone.
pub proof fn lemma_crlf_line_endings(s: Seq<char>)
    ensures
        ztag_records(with_crlf(s)) == ztag_records(s),
{
    lemma_lines_with_crlf(s);
    lemma_fold_up_to_cr(lines_of(with_crlf(s)), lines_of(s));
}

proof fn lemma_lines_concat(x: Seq<char>, y: Seq<char>)
    ensures
        lines_of(x.push('\n') + y) == lines_of(x) + lines_of(y),
    decreases y.len(),
{
    let xn = x.push('\n');
    assert(xn.drop_last() =~= x);
    if y.len() == 0 {
        assert(xn + y =~= xn);
        assert(lines_of(x) + lines_of(y) =~= lines_of(x).push(Seq::<char>::empty()));
    } else {
        let y1 = y.drop_last();
        lemma_lines_concat(x, y1);
        lemma_lines_not_empty(y1);
        assert((xn + y).drop_last() =~= xn + y1);
        assert((xn + y).last() == y.last());
        let before = lines_of(xn + y1);
        if y.last() == '\n' {
            assert(lines_of(x) + lines_of(y) =~= before.push(Seq::<char>::empty()));
        } else {
            assert(lines_of(x) + lines_of(y) =~= before.update(
                before.len() - 1,
                before.last().push(y.last()),
            ));
        }
    }
}

proof fn lemma_step_after_records(r: Seq<RecordMap>, state: (Seq<RecordMap>, RecordMap), line: Seq<
    char,
>)
    ensures
        ztag_step((r + state.0, state.1), line) == (r + ztag_step(state, line).0, ztag_step(
            state,
            line,
        ).1),
{
    assert((r + state.0).push(state.1) =~= r + state.0.push(state.1));
}

proof fn lemma_fold_after_closed(first: Seq<Seq<char>>, second: Seq<Seq<char>>)
    requires
        ztag_fold(first).1 == Map::<Seq<char>, Seq<char>>::empty(),
    ensures
        ztag_fold(first + second) == (ztag_fold(first).0 + ztag_fold(second).0, ztag_fold(
            second,
        ).1),
    decreases second.len(),
{
    let r = ztag_fold(first).0;
    if second.len() == 0 {
        assert(first + second =~= first);
        assert(r + ztag_fold(second).0 =~= r);
    } else {
        let s1 = second.drop_last();
        lemma_fold_after_closed(first, s1);
        assert((first + second).drop_last() =~= first + s1);
        assert((first + second).last() == second.last());
        lemma_step_after_records(r, ztag_fold(s1), second.last());
    }
}

/// Two outputs joined with a blank line between them hold the records of the
/// first followed by those of the second.
pub proof fn lemma_joined_outputs(a: Seq<char>, b: Seq<char>)
    ensures
        ztag_records(a + seq!['\n', '\n'] + b) == ztag_records(a) + ztag_records(b),
{
    let e = Seq::<char>::empty();
    let y = seq!['\n'] + b;
    assert(a + seq!['\n', '\n'] + b =~= a.push('\n') + y);
    lemma_lines_concat(a, y);
    assert(y =~= e.push('\n') + b);
    lemma_lines_concat(e, b);
    assert(lines_of(e) =~= seq![e]);
    let la = lines_of(a);
    let lb = lines_of(b);
    assert(lines_of(a + seq!['\n', '\n'] + b) =~= la.push(e) + lb);
    assert(la.push(e).drop_last() =~= la);
    assert(trim(e) =~= e);
    let fa = ztag_fold(la);
    assert(ztag_fold(la.push(e)) == ztag_step(fa, e));
    assert(ztag_fold(la.push(e)) == (ztag_finish(fa), Map::<Seq<char>, Seq<char>>::empty()));
    lemma_fold_after_closed(la.push(e), lb);
    let fb = ztag_fold(lb);
    assert((ztag_finish(fa) + fb.0).push(fb.1) =~= ztag_finish(fa) + fb.0.push(fb.1));
}

/// The parser state after `lines`, from the state `start`.
pub open spec fn ztag_fold_from(start: (Seq<RecordMap>, RecordMap), lines: Seq<Seq<char>>) -> (
    Seq<RecordMap>,
    RecordMap,
)
    decreases lines.len(),
{
    if lines.len() == 0 {
        start
    } else {
        ztag_step(ztag_fold_from(start, lines.drop_last()), lines.last())
    }
}

proof fn lemma_fold_concat(first: Seq<Seq<char>>, second: Seq<Seq<char>>)
    ensures
        ztag_fold(first + second) == ztag_fold_from(ztag_fold(first), second),
    decreases second.len(),
{
    if second.len() == 0 {
        assert(first + second =~= first);
    } else {
        lemma_fold_concat(first, second.drop_last());
        assert((first + second).drop_last() =~= first + second.drop_last());
        assert((first + second).last() == second.last());
    }
}

proof fn lemma_lines_of_one_line(line: Seq<char>)
    requires
        !line.contains('\n'),
    ensures
        lines_of(line) == seq![line],
    decreases line.len(),
{
    if line.len() > 0 {
        let l1 = line.drop_last();
        assert(!l1.contains('\n')) by {
            if l1.contains('\n') {
                let i = choose|i: int| 0 <= i < l1.len() && l1[i] == '\n';
                assert(line[i] == '\n');
            }
        }
        lemma_lines_of_one_line(l1);
        assert(line.last() != '\n') by {
            assert(line[line.len() - 1] == line.last());
        }
        assert(l1.push(line.last()) =~= line);
    } else {
        assert(line =~= Seq::<char>::empty());
    }
}

/// Whether a trimmed line starts with `...`, the mark of a field.
pub open spec fn starts_with_dots(t: Seq<char>) -> bool {
    t.len() >= 3 && t[0] == '.' && t[1] == '.' && t[2] == '.'
}

/// A line that is not blank and does not start with `...` (such as the
/// second line of a description that runs over several lines) changes
/// nothing: it neither sets a field nor closes the record.
pub proof fn lemma_other_line_ignored(state: (Seq<RecordMap>, RecordMap), line: Seq<char>)
    requires
        trim(line).len() > 0,
        !starts_with_dots(trim(line)),
    ensures
        ztag_step(state, line) == state,
{
}

/// A line that is not blank and does not start with `...`, anywhere in the
/// output, changes nothing of the records: the output without it holds the
/// same records. Records are closed by blank lines alone.
pub proof fn lemma_other_line_in_output(before: Seq<char>, line: Seq<char>, after: Seq<char>)
    requires
        !line.contains('\n'),
        trim(line).len() > 0,
        !starts_with_dots(trim(line)),
    ensures
        ztag_records(before.push('\n') + line.push('\n') + after) == ztag_records(
            before.push('\n') + after,
        ),
{
    let rest = line.push('\n') + after;
    assert(before.push('\n') + line.push('\n') + after =~= before.push('\n') + rest);
    lemma_lines_concat(before, rest);
    lemma_lines_concat(line, after);
    lemma_lines_of_one_line(line);
    lemma_lines_concat(before, after);
    let lb = lines_of(before);
    let la = lines_of(after);
    assert(lines_of(before.push('\n') + rest) =~= lb.push(line) + la);
    lemma_fold_concat(lb.push(line), la);
    lemma_fold_concat(lb, la);
    assert(lb.push(line).drop_last() =~= lb);
    lemma_other_line_ignored(ztag_fold(lb), line);
}

/// Of two fields with the same key in a record, the later one's value is
/// kept.
pub proof fn lemma_last_value_wins(
    state: (Seq<RecordMap>, RecordMap),
    first: Seq<char>,
    second: Seq<char>,
)
    requires
        field_of_line(first) is Some,
        field_of_line(second) is Some,
        field_of_line(first).unwrap().0 == field_of_line(second).unwrap().0,
    ensures
        ztag_step(ztag_step(state, first), second) == ztag_step(state, second),
        ztag_step(state, second).1[field_of_line(second).unwrap().0] == field_of_line(second).unwrap().1,
{
    let k = field_of_line(first).unwrap().0;
    assert(!is_blank_line(first));
    assert(!is_blank_line(second));
    assert(state.1.insert(k, field_of_line(first).unwrap().1).insert(k, field_of_line(second).unwrap().1)
        =~= state.1.insert(k, field_of_line(second).unwrap().1));
}

/// A field set in a record is read back, and every other field stays as it
/// was (what `ZtagRecord::insert` and `ZtagRecord::get` state over the
/// record's map).
pub proof fn lemma_record_read_after_write(
    record: RecordMap,
    key: Seq<char>,
    value: Seq<char>,
    other: Seq<char>,
)
    ensures
        record.insert(key, value).contains_key(key),
        record.insert(key, value)[key] == value,
        other != key ==> record.insert(key, value).contains_key(other) == record.contains_key(other),
        other != key && record.contains_key(other) ==> record.insert(key, value)[other]
            == record[other],
{
}

/// One record of tagged output: a map from keys to values, kept as a list of
/// (key, value) entries in which no key occurs twice.
#[derive(Debug)]
pub struct ZtagRecord {
    entries: Vec<(String, String)>,
}

impl ZtagRecord {
    /// No key occurs twice.
    #[verifier::type_invariant]
    closed spec fn keys_distinct(self) -> bool {
        forall|i: int, j: int|
            0 <= i < j < self.entries@.len() ==> #[trigger] self.entries@[i].0@
                != #[trigger] self.entries@[j].0@
    }
}

spec fn key_at(entries: Seq<(String, String)>, k: Seq<char>, i: int) -> bool {
    0 <= i < entries.len() && entries[i].0@ == k
}

/// The map that a list of (key, value) entries with distinct keys stands for.
spec fn entries_map(entries: Seq<(String, String)>) -> Map<Seq<char>, Seq<char>> {
    Map::new(
        |k: Seq<char>| exists|i: int| key_at(entries, k, i),
        |k: Seq<char>| entries[choose|i: int| key_at(entries, k, i)].1@,
    )
}

impl View for ZtagRecord {
    type V = Map<Seq<char>, Seq<char>>;

    closed spec fn view(&self) -> Map<Seq<char>, Seq<char>> {
        entries_map(self.entries@)
    }
}

impl Clone for ZtagRecord {
    fn clone(&self) -> (r: Self)
        ensures
            r@ == self@,
    {
        proof {
            use_type_invariant(self);
        }
        let mut entries: Vec<(String, String)> = Vec::new();
        let mut i: usize = 0;
        while i < self.entries.len()
            invariant
                0 <= i <= self.entries@.len(),
                entries@ == self.entries@.subrange(0, i as int),
            decreases self.entries@.len() - i,
        {
            let e = (self.entries[i].0.clone(), self.entries[i].1.clone());
            entries.push(e);
            assert(entries@ =~= self.entries@.subrange(0, i + 1));
            i = i + 1;
        }
        assert(entries@ =~= self.entries@);
        let r = ZtagRecord { entries };
        assert(r@ =~= self@);
        r
    }
}

impl ZtagRecord {
    proof fn lemma_view_at(self, i: int)
        requires
            0 <= i < self.entries@.len(),
            self.keys_distinct(),
        ensures
            self@.contains_key(self.entries@[i].0@),
            self@[self.entries@[i].0@] == self.entries@[i].1@,
    {
        let k = self.entries@[i].0@;
        assert(key_at(self.entries@, k, i));
        let j = choose|j: int| key_at(self.entries@, k, j);
        assert(key_at(self.entries@, k, j));
        if i < j {
            assert(self.entries@[i].0@ != self.entries@[j].0@);
        } else if j < i {
            assert(self.entries@[j].0@ != self.entries@[i].0@);
        }
    }

    /// A record with no field.
    pub fn new() -> (r: Self)
        ensures
            r@ == Map::<Seq<char>, Seq<char>>::empty(),
    {
        let r = ZtagRecord { entries: Vec::new() };
        assert(r@ =~= Map::<Seq<char>, Seq<char>>::empty());
        r
    }

    /// The number of fields.
    pub fn len(&self) -> (n: usize)
        ensures
            n == self@.dom().len(),
            self@.dom().finite(),
    {
        proof {
            use_type_invariant(self);
            self.lemma_dom();
        }
        self.entries.len()
    }

    proof fn lemma_dom(self)
        requires
            self.keys_distinct(),
        ensures
            self@.dom() == self.entries@.map_values(|e: (String, String)| e.0@).to_set(),
            self@.dom().finite(),
            self@.dom().len() == self.entries@.len(),
    {
        let keys = self.entries@.map_values(|e: (String, String)| e.0@);
        assert forall|k: Seq<char>| self@.dom().contains(k) <==> keys.to_set().contains(k) by {
            if self@.dom().contains(k) {
                let i = choose|i: int| key_at(self.entries@, k, i);
                assert(keys[i] == k);
            }
            if keys.to_set().contains(k) {
                let i = choose|i: int| 0 <= i < keys.len() && keys[i] == k;
                assert(key_at(self.entries@, k, i));
            }
        }
        assert(self@.dom() =~= keys.to_set());
        assert forall|i: int, j: int| 0 <= i < j < keys.len() implies keys[i] != keys[j] by {
            assert(self.entries@[i].0@ != self.entries@[j].0@);
        }
        assert(keys.no_duplicates());
        keys.unique_seq_to_set();
    }

    /// Whether the record holds no field.
    pub fn is_empty(&self) -> (b: bool)
        ensures
            b == (self@ == Map::<Seq<char>, Seq<char>>::empty()),
    {
        proof {
            use_type_invariant(self);
        }
        if self.entries.len() == 0 {
            assert(self@ =~= Map::<Seq<char>, Seq<char>>::empty());
            true
        } else {
            proof {
                self.lemma_view_at(0);
            }
            false
        }
    }

    /// The value of `key`, if the record holds it.
    pub fn get(&self, key: &str) -> (r: Option<&String>)
        ensures
            r is Some <==> self@.contains_key(key@),
            r matches Some(v) ==> v@ == self@[key@],
    {
        proof {
            use_type_invariant(self);
        }
        let wanted = key.to_owned();
        let mut i: usize = 0;
        while i < self.entries.len()
            invariant
                0 <= i <= self.entries@.len(),
                wanted@ == key@,
                self.keys_distinct(),
                forall|j: int| 0 <= j < i ==> self.entries@[j].0@ != key@,
            decreases self.entries@.len() - i,
        {
            if self.entries[i].0 == wanted {
                proof {
                    self.lemma_view_at(i as int);
                }
                return Some(&self.entries[i].1);
            }
            i = i + 1;
        }
        proof {
            if self@.contains_key(key@) {
                let j = choose|j: int| key_at(self.entries@, key@, j);
                assert(key_at(self.entries@, key@, j));
            }
        }
        None
    }

    /// Sets `key` to `value`, in place of any value it had.
    pub fn insert(&mut self, key: String, value: String)
        ensures
            final(self)@ == old(self)@.insert(key@, value@),
    {
        proof {
            use_type_invariant(&*self);
        }
        let ghost before = *self;
        let ghost before_view = self@;
        let mut i: usize = 0;
        while i < self.entries.len()
            invariant
                0 <= i <= self.entries@.len(),
                *self == before,
                before_view == before@,
                before_view == old(self)@,
                before.keys_distinct(),
                forall|j: int| 0 <= j < i ==> self.entries@[j].0@ != key@,
            decreases self.entries@.len() - i,
        {
            if self.entries[i].0 == key {
                let ghost k = key@;
                let ghost v = value@;
                let mut entries = Vec::new();
                std::mem::swap(&mut entries, &mut self.entries);
                entries.set(i, (key, value));
                let ghost after = ZtagRecord { entries };
                proof {
                    assert forall|a: int, b: int|
                        0 <= a < b < after.entries@.len() implies #[trigger] after.entries@[a].0@
                        != #[trigger] after.entries@[b].0@ by {
                        assert(before.entries@[a].0@ != before.entries@[b].0@);
                    }
                    assert forall|kk: Seq<char>| #[trigger]
                        after@.contains_key(kk) == before@.insert(k, v).contains_key(kk) by {
                        if after@.contains_key(kk) {
                            let a = choose|a: int| key_at(after.entries@, kk, a);
                            assert(key_at(before.entries@, kk, a));
                        }
                        if before@.contains_key(kk) {
                            let a = choose|a: int| key_at(before.entries@, kk, a);
                            assert(key_at(after.entries@, kk, a));
                        }
                        if kk == k {
                            assert(key_at(after.entries@, kk, i as int));
                        }
                    }
                    assert forall|kk: Seq<char>| #[trigger]
                        after@.contains_key(kk) implies after@[kk] == before@.insert(k, v)[kk] by {
                        let a = choose|a: int| key_at(after.entries@, kk, a);
                        assert(key_at(after.entries@, kk, a));
                        after.lemma_view_at(a);
                        if a != i {
                            before.lemma_view_at(a);
                        }
                    }
                    assert(after@ =~= before@.insert(k, v));
                }
                self.entries = entries;
                assert(self.entries@ == after.entries@);
                assert(*self == after);
                assert(self@ == before_view.insert(k, v));
                return;
            }
            i = i + 1;
        }
        let ghost k = key@;
        let ghost v = value@;
        let mut entries = Vec::new();
        std::mem::swap(&mut entries, &mut self.entries);
        entries.push((key, value));
        let ghost after = ZtagRecord { entries };
        let ghost n = before.entries@.len() as int;
        proof {
            assert forall|a: int, b: int|
                0 <= a < b < after.entries@.len() implies #[trigger] after.entries@[a].0@
                != #[trigger] after.entries@[b].0@ by {
                if b < n {
                    assert(before.entries@[a].0@ != before.entries@[b].0@);
                }
            }
            assert forall|kk: Seq<char>| #[trigger]
                after@.contains_key(kk) == before@.insert(k, v).contains_key(kk) by {
                if after@.contains_key(kk) {
                    let a = choose|a: int| key_at(after.entries@, kk, a);
                    if a < n {
                        assert(key_at(before.entries@, kk, a));
                    }
                }
                if before@.contains_key(kk) {
                    let a = choose|a: int| key_at(before.entries@, kk, a);
                    assert(key_at(after.entries@, kk, a));
                }
                if kk == k {
                    assert(key_at(after.entries@, kk, n));
                }
            }
            assert forall|kk: Seq<char>| #[trigger]
                after@.contains_key(kk) implies after@[kk] == before@.insert(k, v)[kk] by {
                let a = choose|a: int| key_at(after.entries@, kk, a);
                assert(key_at(after.entries@, kk, a));
                after.lemma_view_at(a);
                if a < n {
                    before.lemma_view_at(a);
                }
            }
            assert(after@ =~= before@.insert(k, v));
        }
        self.entries = entries;
    }
}


/// The records of a list of records, each by its map.
pub open spec fn record_views(records: Seq<ZtagRecord>) -> Seq<RecordMap> {
    records.map_values(|r: ZtagRecord| r@)
}

/// The parsed tagged output of a `p4` command: its records, in order.
#[derive(Debug)]
pub struct ZtagOutput {
    pub records: Vec<ZtagRecord>,
}

impl View for ZtagOutput {
    type V = Seq<RecordMap>;

    open spec fn view(&self) -> Seq<RecordMap> {
        record_views(self.records@)
    }
}

impl Clone for ZtagOutput {
    fn clone(&self) -> (r: Self)
        ensures
            r@ == self@,
    {
        let mut records: Vec<ZtagRecord> = Vec::new();
        let mut i: usize = 0;
        while i < self.records.len()
            invariant
                0 <= i <= self.records@.len(),
                records@.len() == i,
                forall|j: int| 0 <= j < i ==> #[trigger] records@[j]@ == self.records@[j]@,
            decreases self.records@.len() - i,
        {
            let r = self.records[i].clone();
            records.push(r);
            i = i + 1;
        }
        assert(record_views(records@) =~= record_views(self.records@));
        ZtagOutput { records }
    }
}

impl Default for ZtagOutput {
    fn default() -> (r: Self)
        ensures
            r@ == Seq::<RecordMap>::empty(),
    {
        let r = ZtagOutput { records: Vec::new() };
        assert(r@ =~= Seq::<RecordMap>::empty());
        r
    }
}

/// The field that the trimmed line `text[a..b]` holds, as strings.
fn field_in(text: &Vec<char>, a: usize, b: usize) -> (r: Option<(String, String)>)
    requires
        a <= b <= text@.len(),
    ensures
        match r {
            Some(f) => field_of_trimmed(text@.subrange(a as int, b as int)) == Some((f.0@, f.1@)),
            None => field_of_trimmed(text@.subrange(a as int, b as int)) is None,
        },
{
    if b - a >= 3 && text[a] == '.' && text[a + 1] == '.' && text[a + 2] == '.' {
        let ghost t = text@.subrange(a as int, b as int);
        assert(t.subrange(3, t.len() as int) =~= text@.subrange(a + 3, b as int));
        let c = skip_white_space(text, a + 3, b);
        let k = word_end(text, c, b);
        let ghost rest = text@.subrange(c as int, b as int);
        assert(rest.subrange(0, (k - c) as int) =~= text@.subrange(c as int, k as int));
        if k == c {
            return None;
        }
        let key = string_of(text, c, k);
        let value = if k < b {
            assert(rest.subrange((k - c) + 1, rest.len() as int) =~= text@.subrange(
                k + 1,
                b as int,
            ));
            let s = skip_white_space(text, k + 1, b);
            let e = trim_end_index(text, s, b);
            string_of(text, s, e)
        } else {
            String::new()
        };
        Some((key, value))
    } else {
        None
    }
}

/// Applies the line `text[from..to]` to the parser state.
fn apply_line(
    text: &Vec<char>,
    from: usize,
    to: usize,
    records: &mut Vec<ZtagRecord>,
    current: &mut ZtagRecord,
)
    requires
        from <= to <= text@.len(),
    ensures
        (record_views(final(records)@), final(current)@) == ztag_step(
            (record_views(old(records)@), old(current)@),
            text@.subrange(from as int, to as int),
        ),
{
    let a = skip_white_space(text, from, to);
    let b = trim_end_index(text, a, to);
    if a == b {
        if !current.is_empty() {
            let mut finished = ZtagRecord::new();
            std::mem::swap(&mut finished, current);
            let ghost before = records@;
            records.push(finished);
            assert(record_views(records@) =~= record_views(before).push(finished@));
        }
    } else {
        match field_in(text, a, b) {
            Some((key, value)) => current.insert(key, value),
            None => {},
        }
    }
}

/// Parses the output of a Perforce command run with `-Ztag`.
///
/// Records are separated by blank lines; each field is a line
/// `... key value`. Lines are trimmed; lines that are neither blank nor
/// fields are ignored; a key given twice in a record keeps its last value.
pub fn parse_ztag(output: &str) -> (res: ZtagOutput)
    ensures
        res@ == ztag_records(output@),
{
    let text = chars_of(output);
    let n = text.len();
    let mut records: Vec<ZtagRecord> = Vec::new();
    let mut current = ZtagRecord::new();
    let mut start: usize = 0;
    let mut i: usize = 0;
    let ghost mut done: Seq<Seq<char>> = Seq::empty();
    assert(text@.subrange(0, 0) =~= Seq::<char>::empty());
    assert(record_views(records@) =~= Seq::<RecordMap>::empty());
    while i < n
        invariant
            start <= i <= n == text@.len(),
            lines_of(text@.subrange(0, i as int)) == done.push(
                text@.subrange(start as int, i as int),
            ),
            (record_views(records@), current@) == ztag_fold(done),
        decreases n - i,
    {
        let ghost prefix = text@.subrange(0, i + 1);
        assert(prefix.drop_last() =~= text@.subrange(0, i as int));
        if text[i] == '\n' {
            apply_line(&text, start, i, &mut records, &mut current);
            proof {
                let line = text@.subrange(start as int, i as int);
                assert(done.push(line).drop_last() =~= done);
                done = done.push(line);
                assert(text@.subrange(i + 1, i + 1) =~= Seq::<char>::empty());
            }
            start = i + 1;
        } else {
            proof {
                assert(text@.subrange(start as int, i as int).push(text@[i as int])
                    =~= text@.subrange(start as int, i + 1));
                assert(done.push(text@.subrange(start as int, i as int)).update(
                    done.len() as int,
                    text@.subrange(start as int, i + 1),
                ) =~= done.push(text@.subrange(start as int, i + 1)));
            }
        }
        i = i + 1;
    }
    apply_line(&text, start, n, &mut records, &mut current);
    proof {
        let line = text@.subrange(start as int, n as int);
        assert(done.push(line).drop_last() =~= done);
        assert(text@.subrange(0, n as int) =~= output@);
    }
    if !current.is_empty() {
        let ghost before = records@;
        records.push(current);
        assert(record_views(records@) =~= record_views(before).push(current@));
    }
    ZtagOutput { records }
}

} // verus!
