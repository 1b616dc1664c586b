//! The storage codec: a bijective mapping between a sequence of tasks and the
//! flat-file text that persists them.
//!
//! The format is one header line naming the four fields, then one record per
//! task: the three text fields each written between double quotes (a quote
//! inside a field is doubled), the done flag written as a bare `true` or
//! `false`, fields separated by commas and records by a newline. Quoting every
//! text field keeps embedded delimiters, quotes and line breaks representable,
//! and the reader accepts exactly what the writer emits, so decoding what was
//! encoded always succeeds (see [`lemma_round_trip`]).

use vstd::prelude::*;

use crate::task::TaskView;

verus! {

/// The header line, terminated by the record separator.
pub open spec fn header_text() -> Seq<char> {
    seq![
        'i', 'd', ',', 't', 'i', 't', 'l', 'e', ',', 'd', 'e', 's', 'c', 'r', 'i', 'p', 't',
        'i', 'o', 'n', ',', 'i', 's', '_', 'd', 'o', 'n', 'e', '\n',
    ]
}

/// A field's text with every double quote doubled.
pub open spec fn escape_quotes(f: Seq<char>) -> Seq<char>
    decreases f.len(),
{
    if f.len() == 0 {
        Seq::empty()
    } else {
        (if f[0] == '"' {
            seq!['"', '"']
        } else {
            seq![f[0]]
        }) + escape_quotes(f.drop_first())
    }
}

/// A text field as written: the escaped text between double quotes.
pub open spec fn encode_field(f: Seq<char>) -> Seq<char> {
    seq!['"'] + escape_quotes(f) + seq!['"']
}

/// The done flag as written.
pub open spec fn bool_text(b: bool) -> Seq<char> {
    if b {
        seq!['t', 'r', 'u', 'e']
    } else {
        seq!['f', 'a', 'l', 's', 'e']
    }
}

/// One record: the four fields comma-separated, ended by a newline.
pub open spec fn encode_task(t: TaskView) -> Seq<char> {
    encode_field(t.id) + seq![','] + encode_field(t.title) + seq![','] + encode_field(t.description)
        + seq![','] + bool_text(t.is_done) + seq!['\n']
}

/// All records in order, without the header.
pub open spec fn encode_tasks(ts: Seq<TaskView>) -> Seq<char>
    decreases ts.len(),
{
    if ts.len() == 0 {
        Seq::empty()
    } else {
        encode_task(ts[0]) + encode_tasks(ts.drop_first())
    }
}

/// The full file text: the header line followed by every record.
pub open spec fn spec_encode(ts: Seq<TaskView>) -> Seq<char> {
    header_text() + encode_tasks(ts)
}

/// Reads a quoted field after its opening quote: yields the field's text and
/// what follows the closing quote, or nothing if no closing quote comes.
pub open spec fn parse_quoted(s: Seq<char>) -> Option<(Seq<char>, Seq<char>)>
    decreases s.len(),
{
    if s.len() == 0 {
        None
    } else if s[0] == '"' {
        if s.len() >= 2 && s[1] == '"' {
            match parse_quoted(s.skip(2)) {
                Some(p) => Some((seq!['"'] + p.0, p.1)),
                None => None,
            }
        } else {
            Some((Seq::empty(), s.skip(1)))
        }
    } else {
        match parse_quoted(s.skip(1)) {
            Some(p) => Some((seq![s[0]] + p.0, p.1)),
            None => None,
        }
    }
}

/// Reads one quoted field, opening quote included.
pub open spec fn parse_field(s: Seq<char>) -> Option<(Seq<char>, Seq<char>)> {
    if s.len() >= 1 && s[0] == '"' {
        parse_quoted(s.skip(1))
    } else {
        None
    }
}

/// Reads the comma between two fields.
pub open spec fn parse_sep(s: Seq<char>) -> Option<Seq<char>> {
    if s.len() >= 1 && s[0] == ',' {
        Some(s.skip(1))
    } else {
        None
    }
}

/// Reads the done flag together with the record's closing newline.
pub open spec fn parse_bool_line(s: Seq<char>) -> Option<(bool, Seq<char>)> {
    if s.len() >= 5 && s.take(5) == bool_text(true) + seq!['\n'] {
        Some((true, s.skip(5)))
    } else if s.len() >= 6 && s.take(6) == bool_text(false) + seq!['\n'] {
        Some((false, s.skip(6)))
    } else {
        None
    }
}

/// Reads one full record: four fields and the closing newline.
pub open spec fn parse_task(s: Seq<char>) -> Option<(TaskView, Seq<char>)> {
    match parse_field(s) {
        None => None,
        Some((id, s1)) => match parse_sep(s1) {
            None => None,
            Some(s2) => match parse_field(s2) {
                None => None,
                Some((title, s3)) => match parse_sep(s3) {
                    None => None,
                    Some(s4) => match parse_field(s4) {
                        None => None,
                        Some((description, s5)) => match parse_sep(s5) {
                            None => None,
                            Some(s6) => match parse_bool_line(s6) {
                                None => None,
                                Some((is_done, rest)) => Some(
                                    (TaskView { id, title, description, is_done }, rest),
                                ),
                            },
                        },
                    },
                },
            },
        },
    }
}

/// Reads records until the text is exhausted; any leftover that is not a
/// well-formed record makes the whole read fail.
pub open spec fn parse_tasks(s: Seq<char>) -> Option<Seq<TaskView>>
    decreases s.len() via parse_tasks_decreases
{
    if s.len() == 0 {
        Some(Seq::empty())
    } else {
        match parse_task(s) {
            None => None,
            Some((t, rest)) => match parse_tasks(rest) {
                None => None,
                Some(ts) => Some(seq![t] + ts),
            },
        }
    }
}

#[via_fn]
proof fn parse_tasks_decreases(s: Seq<char>) {
    if s.len() != 0 {
        lemma_parse_task_shrinks(s);
    }
}

/// What a whole file means: empty text is an empty collection; otherwise the
/// header line must come first and every following record must be well formed.
pub open spec fn spec_parse(text: Seq<char>) -> Option<Seq<TaskView>> {
    if text.len() == 0 {
        Some(Seq::empty())
    } else if text.len() >= header_text().len() && text.take(header_text().len() as int)
        == header_text() {
        parse_tasks(text.skip(header_text().len() as int))
    } else {
        None
    }
}

/// A quoted field always consumes at least its closing quote.
proof fn lemma_parse_quoted_shrinks(s: Seq<char>)
    ensures
        parse_quoted(s) matches Some(p) ==> p.1.len() < s.len(),
    decreases s.len(),
{
    if s.len() == 0 {
    } else if s[0] == '"' {
        if s.len() >= 2 && s[1] == '"' {
            lemma_parse_quoted_shrinks(s.skip(2));
        }
    } else {
        lemma_parse_quoted_shrinks(s.skip(1));
    }
}

/// A record always consumes at least one character.
proof fn lemma_parse_task_shrinks(s: Seq<char>)
    ensures
        parse_task(s) matches Some(p) ==> p.1.len() < s.len(),
{
    if s.len() >= 1 && s[0] == '"' {
        lemma_parse_quoted_shrinks(s.skip(1));
        if let Some((id, s1)) = parse_field(s) {
            if let Some(s2) = parse_sep(s1) {
                if s2.len() >= 1 && s2[0] == '"' {
                    lemma_parse_quoted_shrinks(s2.skip(1));
                    if let Some((title, s3)) = parse_field(s2) {
                        if let Some(s4) = parse_sep(s3) {
                            if s4.len() >= 1 && s4[0] == '"' {
                                lemma_parse_quoted_shrinks(s4.skip(1));
                            }
                        }
                    }
                }
            }
        }
    }
}

/// Escaping distributes over concatenation.
proof fn lemma_escape_append(u: Seq<char>, c: char)
    ensures
        escape_quotes(u.push(c)) == escape_quotes(u) + (if c == '"' {
            seq!['"', '"']
        } else {
            seq![c]
        }),
    decreases u.len(),
{
    let tail: Seq<char> = if c == '"' {
        seq!['"', '"']
    } else {
        seq![c]
    };
    if u.len() == 0 {
        assert(u.push(c)[0] == c);
        assert(u.push(c).drop_first() =~= u);
        assert(escape_quotes(u.push(c)) == tail + escape_quotes(u));
        assert(tail + escape_quotes(u) =~= escape_quotes(u) + tail);
    } else {
        assert(u.push(c)[0] == u[0]);
        assert(u.push(c).drop_first() =~= u.drop_first().push(c));
        lemma_escape_append(u.drop_first(), c);
        let head: Seq<char> = if u[0] == '"' {
            seq!['"', '"']
        } else {
            seq![u[0]]
        };
        assert(escape_quotes(u.push(c)) == head + (escape_quotes(u.drop_first()) + tail));
        assert(head + (escape_quotes(u.drop_first()) + tail) =~= (head + escape_quotes(
            u.drop_first(),
        )) + tail);
    }
}

/// Reading back what escaping wrote recovers the field exactly, as long as
/// what follows the closing quote does not itself begin with a quote.
proof fn lemma_quoted_round_trip(f: Seq<char>, rest: Seq<char>)
    requires
        rest.len() == 0 || rest[0] != '"',
    ensures
        parse_quoted(escape_quotes(f) + seq!['"'] + rest) == Some((f, rest)),
    decreases f.len(),
{
    let s = escape_quotes(f) + seq!['"'] + rest;
    if f.len() == 0 {
        assert(s =~= seq!['"'] + rest);
        assert(s[0] == '"');
        if s.len() >= 2 {
            assert(s[1] == rest[0]);
        }
        assert(s.skip(1) =~= rest);
    } else {
        let f1 = f.drop_first();
        lemma_quoted_round_trip(f1, rest);
        if f[0] == '"' {
            assert(escape_quotes(f) == seq!['"', '"'] + escape_quotes(f1));
            assert(s[0] == '"' && s[1] == '"');
            assert(s.skip(2) =~= escape_quotes(f1) + seq!['"'] + rest);
            assert(seq!['"'] + f1 =~= f);
        } else {
            assert(escape_quotes(f) == seq![f[0]] + escape_quotes(f1));
            assert(s[0] == f[0]);
            assert(s.skip(1) =~= escape_quotes(f1) + seq!['"'] + rest);
            assert(seq![f[0]] + f1 =~= f);
        }
    }
}

/// Reading back an encoded field recovers it exactly.
proof fn lemma_field_round_trip(f: Seq<char>, rest: Seq<char>)
    requires
        rest.len() == 0 || rest[0] != '"',
    ensures
        parse_field(encode_field(f) + rest) == Some((f, rest)),
{
    let s = encode_field(f) + rest;
    assert(s[0] == '"');
    assert(s.skip(1) =~= escape_quotes(f) + seq!['"'] + rest);
    lemma_quoted_round_trip(f, rest);
}

/// Reading back an encoded field and its trailing comma recovers both.
proof fn lemma_field_comma_round_trip(f: Seq<char>, rest: Seq<char>)
    ensures
        parse_field(encode_field(f) + seq![','] + rest) == Some((f, seq![','] + rest)),
        parse_sep(seq![','] + rest) == Some(rest),
{
    lemma_field_round_trip(f, seq![','] + rest);
    assert(encode_field(f) + seq![','] + rest =~= encode_field(f) + (seq![','] + rest));
    assert((seq![','] + rest)[0] == ',');
    assert((seq![','] + rest).skip(1) =~= rest);
}

/// Reading back the written done flag and newline recovers the flag.
proof fn lemma_bool_round_trip(b: bool, rest: Seq<char>)
    ensures
        parse_bool_line(bool_text(b) + seq!['\n'] + rest) == Some((b, rest)),
{
    let s = bool_text(b) + seq!['\n'] + rest;
    if b {
        assert(s.take(5) =~= bool_text(true) + seq!['\n']);
        assert(s.skip(5) =~= rest);
    } else {
        assert(s.len() >= 6);
        if s.len() >= 5 && s.take(5) == bool_text(true) + seq!['\n'] {
            assert(s.take(5)[0] == 't');
            assert(s[0] == 'f');
            assert(false);
        }
        assert(s.take(6) =~= bool_text(false) + seq!['\n']);
        assert(s.skip(6) =~= rest);
    }
}

/// Reading back an encoded record recovers the task and leaves the rest.
proof fn lemma_task_round_trip(t: TaskView, rest: Seq<char>)
    ensures
        parse_task(encode_task(t) + rest) == Some((t, rest)),
{
    let tail3 = bool_text(t.is_done) + seq!['\n'] + rest;
    let tail2 = encode_field(t.description) + seq![','] + tail3;
    let tail1 = encode_field(t.title) + seq![','] + tail2;
    let s = encode_field(t.id) + seq![','] + tail1;
    assert(encode_task(t) + rest =~= s);
    lemma_field_comma_round_trip(t.id, tail1);
    lemma_field_comma_round_trip(t.title, tail2);
    lemma_field_comma_round_trip(t.description, tail3);
    lemma_bool_round_trip(t.is_done, rest);
    assert(parse_task(s) == Some((t, rest)));
}

/// A record's text is never empty.
proof fn lemma_encode_task_nonempty(t: TaskView)
    ensures
        encode_task(t).len() > 0,
{
}

/// Reading back every written record recovers the collection.
proof fn lemma_tasks_round_trip(ts: Seq<TaskView>)
    ensures
        parse_tasks(encode_tasks(ts)) == Some(ts),
    decreases ts.len(),
{
    if ts.len() == 0 {
    } else {
        let t0 = ts[0];
        let ts1 = ts.drop_first();
        let s = encode_tasks(ts);
        assert(s == encode_task(t0) + encode_tasks(ts1));
        lemma_encode_task_nonempty(t0);
        assert(s.len() > 0);
        lemma_task_round_trip(t0, encode_tasks(ts1));
        lemma_tasks_round_trip(ts1);
        assert(seq![t0] + ts1 =~= ts);
    }
}

/// Appending one task to a collection appends its record to the text.
proof fn lemma_encode_tasks_append(ts: Seq<TaskView>, t: TaskView)
    ensures
        encode_tasks(ts.push(t)) == encode_tasks(ts) + encode_task(t),
    decreases ts.len(),
{
    if ts.len() == 0 {
        assert(ts.push(t)[0] == t);
        assert(ts.push(t).drop_first() =~= ts);
        assert(encode_tasks(ts.push(t)) == encode_task(t) + encode_tasks(ts));
        assert(encode_task(t) + encode_tasks(ts) =~= encode_tasks(ts) + encode_task(t));
    } else {
        assert(ts.push(t)[0] == ts[0]);
        assert(ts.push(t).drop_first() =~= ts.drop_first().push(t));
        lemma_encode_tasks_append(ts.drop_first(), t);
        assert(encode_task(ts[0]) + (encode_tasks(ts.drop_first()) + encode_task(t)) =~= (
        encode_task(ts[0]) + encode_tasks(ts.drop_first())) + encode_task(t));
    }
}

/// Round trip: reading back a written collection always succeeds and yields
/// the same tasks, in the same order, field for field.
pub proof fn lemma_round_trip(ts: Seq<TaskView>)
    ensures
        spec_parse(spec_encode(ts)) == Some(ts),
{
    let text = spec_encode(ts);
    let hl = header_text().len() as int;
    assert(text.len() >= hl);
    assert(text.take(hl) =~= header_text());
    assert(text.skip(hl) =~= encode_tasks(ts));
    lemma_tasks_round_trip(ts);
}

} // verus!

use crate::TodoError;
use crate::task::{Task, views};

verus! {

broadcast use vstd::string::group_string_axioms;

/// Relies on std's `String::push`: appends exactly one character.
pub assume_specification[ String::push ](s: &mut String, ch: char)
    ensures
        final(s)@ == old(s)@.push(ch),
;

/// The characters of a string slice, in order.
pub fn str_to_chars(s: &str) -> (r: Vec<char>)
    ensures
        r@ == s@,
{
    let n = s.unicode_len();
    let mut v: Vec<char> = Vec::new();
    let mut i: usize = 0;
    while i < n
        invariant
            n == s@.len(),
            i <= n,
            v@ == s@.take(i as int),
        decreases n - i,
    {
        let c = s.get_char(i);
        v.push(c);
        proof {
            assert(s@.take((i + 1) as int) =~= s@.take(i as int).push(s@[i as int]));
        }
        i += 1;
    }
    proof {
        assert(s@.take(n as int) =~= s@);
    }
    v
}

/// Appends a field's text with every double quote doubled.
fn append_escaped(out: &mut String, field: &str)
    ensures
        final(out)@ == old(out)@ + escape_quotes(field@),
{
    let ghost out0 = out@;
    let n = field.unicode_len();
    let mut i: usize = 0;
    while i < n
        invariant
            n == field@.len(),
            i <= n,
            out@ == out0 + escape_quotes(field@.take(i as int)),
        decreases n - i,
    {
        let c = field.get_char(i);
        if c == '"' {
            out.push('"');
            out.push('"');
        } else {
            out.push(c);
        }
        proof {
            lemma_escape_append(field@.take(i as int), field@[i as int]);
            assert(field@.take((i + 1) as int) =~= field@.take(i as int).push(field@[i as int]));
            assert(out@ =~= out0 + escape_quotes(field@.take((i + 1) as int)));
        }
        i += 1;
    }
    proof {
        assert(field@.take(n as int) =~= field@);
    }
}

/// Appends one encoded field: the escaped text between double quotes.
fn append_field(out: &mut String, field: &str)
    ensures
        final(out)@ == old(out)@ + encode_field(field@),
{
    let ghost out0 = out@;
    out.push('"');
    append_escaped(out, field);
    out.push('"');
    proof {
        assert(out@ =~= out0 + encode_field(field@));
    }
}

/// Appends one encoded record.
fn append_task(out: &mut String, t: &Task)
    ensures
        final(out)@ == old(out)@ + encode_task(t@),
{
    let ghost out0 = out@;
    append_field(out, t.id.as_str());
    out.push(',');
    append_field(out, t.title.as_str());
    out.push(',');
    append_field(out, t.description.as_str());
    out.push(',');
    if t.is_done {
        out.append("true");
        proof {
            reveal_strlit("true");
            assert("true"@ =~= bool_text(true));
        }
    } else {
        out.append("false");
        proof {
            reveal_strlit("false");
            assert("false"@ =~= bool_text(false));
        }
    }
    out.push('\n');
    proof {
        assert(out@ =~= out0 + encode_task(t@));
    }
}

/// Writes the whole collection as file text: the header line, then one record
/// per task, in the collection's order.
pub fn encode(tasks: &Vec<Task>) -> (r: String)
    ensures
        r@ == spec_encode(views(tasks@)),
{
    let mut out = String::new();
    out.append("id,title,description,is_done\n");
    proof {
        reveal_strlit("id,title,description,is_done\n");
        assert(out@ =~= header_text());
    }
    let ghost tvs = views(tasks@);
    let mut k: usize = 0;
    while k < tasks.len()
        invariant
            k <= tasks.len(),
            tvs == views(tasks@),
            out@ == header_text() + encode_tasks(tvs.take(k as int)),
        decreases tasks.len() - k,
    {
        append_task(&mut out, &tasks[k]);
        proof {
            assert(tvs[k as int] == tasks@[k as int]@);
            lemma_encode_tasks_append(tvs.take(k as int), tvs[k as int]);
            assert(tvs.take(k as int).push(tvs[k as int]) =~= tvs.take((k + 1) as int));
        }
        k += 1;
    }
    proof {
        assert(tvs.take(tasks.len() as int) =~= tvs);
    }
    out
}

/// Already-read text, put in front of whatever a field parse yields.
spec fn with_prefix(x: Seq<char>, o: Option<(Seq<char>, Seq<char>)>) -> Option<
    (Seq<char>, Seq<char>),
> {
    match o {
        Some(p) => Some((x + p.0, p.1)),
        None => None,
    }
}

proof fn lemma_with_prefix_assoc(a: Seq<char>, b: Seq<char>, o: Option<(Seq<char>, Seq<char>)>)
    ensures
        with_prefix(a, with_prefix(b, o)) == with_prefix(a + b, o),
{
    match o {
        Some(p) => {
            assert(a + (b + p.0) =~= (a + b) + p.0);
        },
        None => {},
    }
}

/// Already-read tasks, put in front of whatever a record parse yields.
spec fn with_tasks_prefix(x: Seq<TaskView>, o: Option<Seq<TaskView>>) -> Option<Seq<TaskView>> {
    match o {
        Some(ts) => Some(x + ts),
        None => None,
    }
}

proof fn lemma_with_tasks_prefix_assoc(a: Seq<TaskView>, b: Seq<TaskView>, o: Option<Seq<TaskView>>)
    ensures
        with_tasks_prefix(a, with_tasks_prefix(b, o)) == with_tasks_prefix(a + b, o),
{
    match o {
        Some(ts) => {
            assert(a + (b + ts) =~= (a + b) + ts);
        },
        None => {},
    }
}

/// Reads one quoted field starting after its opening quote.
fn parse_quoted_exec(v: &Vec<char>, start: usize) -> (r: Option<(String, usize)>)
    requires
        start <= v.len(),
    ensures
        match r {
            Some((f, j)) => start < j <= v.len() && parse_quoted(v@.skip(start as int)) == Some(
                (f@, v@.skip(j as int)),
            ),
            None => parse_quoted(v@.skip(start as int)) is None,
        },
{
    let mut acc = String::new();
    let mut i = start;
    loop
        invariant
            start <= i <= v.len(),
            parse_quoted(v@.skip(start as int)) == with_prefix(
                acc@,
                parse_quoted(v@.skip(i as int)),
            ),
        decreases v.len() - i,
    {
        if i == v.len() {
            proof {
                assert(v@.skip(i as int).len() == 0);
            }
            return None;
        }
        let c = v[i];
        proof {
            assert(v@.skip(i as int)[0] == v@[i as int]);
        }
        if c == '"' {
            if v.len() - i >= 2 && v[i + 1] == '"' {
                proof {
                    let s = v@.skip(i as int);
                    assert(s[1] == v@[(i + 1) as int]);
                    assert(s.skip(2) =~= v@.skip((i + 2) as int));
                    assert(parse_quoted(s) == with_prefix(
                        seq!['"'],
                        parse_quoted(v@.skip((i + 2) as int)),
                    ));
                    lemma_with_prefix_assoc(
                        acc@,
                        seq!['"'],
                        parse_quoted(v@.skip((i + 2) as int)),
                    );
                    assert(acc@.push('"') =~= acc@ + seq!['"']);
                }
                acc.push('"');
                i = i + 2;
            } else {
                proof {
                    let s = v@.skip(i as int);
                    if s.len() >= 2 {
                        assert(s[1] == v@[(i + 1) as int]);
                    }
                    assert(parse_quoted(s) == Some((Seq::<char>::empty(), s.skip(1))));
                    assert(s.skip(1) =~= v@.skip((i + 1) as int));
                    assert(acc@ + Seq::<char>::empty() =~= acc@);
                }
                return Some((acc, i + 1));
            }
        } else {
            proof {
                let s = v@.skip(i as int);
                assert(s.skip(1) =~= v@.skip((i + 1) as int));
                assert(parse_quoted(s) == with_prefix(
                    seq![v@[i as int]],
                    parse_quoted(v@.skip((i + 1) as int)),
                ));
                lemma_with_prefix_assoc(
                    acc@,
                    seq![v@[i as int]],
                    parse_quoted(v@.skip((i + 1) as int)),
                );
                assert(acc@.push(v@[i as int]) =~= acc@ + seq![v@[i as int]]);
            }
            acc.push(c);
            i = i + 1;
        }
    }
}

/// Reads one quoted field, opening quote included.
fn parse_field_exec(v: &Vec<char>, start: usize) -> (r: Option<(String, usize)>)
    requires
        start <= v.len(),
    ensures
        match r {
            Some((f, j)) => start < j <= v.len() && parse_field(v@.skip(start as int)) == Some(
                (f@, v@.skip(j as int)),
            ),
            None => parse_field(v@.skip(start as int)) is None,
        },
{
    if start < v.len() && v[start] == '"' {
        proof {
            assert(v@.skip(start as int)[0] == '"');
            assert(v@.skip(start as int).skip(1) =~= v@.skip((start + 1) as int));
        }
        parse_quoted_exec(v, start + 1)
    } else {
        proof {
            let s = v@.skip(start as int);
            if s.len() >= 1 {
                assert(s[0] == v@[start as int]);
            }
        }
        None
    }
}

/// Reads the done flag and the record's closing newline.
fn parse_bool_exec(v: &Vec<char>, start: usize) -> (r: Option<(bool, usize)>)
    requires
        start <= v.len(),
    ensures
        match r {
            Some((b, j)) => start < j <= v.len() && parse_bool_line(v@.skip(start as int)) == Some(
                (b, v@.skip(j as int)),
            ),
            None => parse_bool_line(v@.skip(start as int)) is None,
        },
{
    let n = v.len();
    let ghost s = v@.skip(start as int);
    if n - start >= 5 && v[start] == 't' && v[start + 1] == 'r' && v[start + 2] == 'u' && v[start
        + 3] == 'e' && v[start + 4] == '\n' {
        proof {
            assert(s.take(5) =~= bool_text(true) + seq!['\n']);
            assert(s.skip(5) =~= v@.skip((start + 5) as int));
        }
        Some((true, start + 5))
    } else if n - start >= 6 && v[start] == 'f' && v[start + 1] == 'a' && v[start + 2] == 'l'
        && v[start + 3] == 's' && v[start + 4] == 'e' && v[start + 5] == '\n' {
        proof {
            assert(s.take(5)[0] == 'f');
            assert((bool_text(true) + seq!['\n'])[0] == 't');
            assert(s.take(5) != bool_text(true) + seq!['\n']);
            assert(s.take(6) =~= bool_text(false) + seq!['\n']);
            assert(s.skip(6) =~= v@.skip((start + 6) as int));
        }
        Some((false, start + 6))
    } else {
        proof {
            if s.len() >= 5 && s.take(5) == bool_text(true) + seq!['\n'] {
                assert(v@[start as int] == s.take(5)[0]);
                assert(v@[(start + 1) as int] == s.take(5)[1]);
                assert(v@[(start + 2) as int] == s.take(5)[2]);
                assert(v@[(start + 3) as int] == s.take(5)[3]);
                assert(v@[(start + 4) as int] == s.take(5)[4]);
                assert(false);
            }
            if s.len() >= 6 && s.take(6) == bool_text(false) + seq!['\n'] {
                assert(v@[start as int] == s.take(6)[0]);
                assert(v@[(start + 1) as int] == s.take(6)[1]);
                assert(v@[(start + 2) as int] == s.take(6)[2]);
                assert(v@[(start + 3) as int] == s.take(6)[3]);
                assert(v@[(start + 4) as int] == s.take(6)[4]);
                assert(v@[(start + 5) as int] == s.take(6)[5]);
                assert(false);
            }
        }
        None
    }
}

/// Reads one full record and builds the task it describes.
fn parse_task_exec(v: &Vec<char>, start: usize) -> (r: Option<(Task, usize)>)
    requires
        start <= v.len(),
    ensures
        match r {
            Some((t, j)) => start < j <= v.len() && parse_task(v@.skip(start as int)) == Some(
                (t@, v@.skip(j as int)),
            ),
            None => parse_task(v@.skip(start as int)) is None,
        },
{
    let (id, j1) = match parse_field_exec(v, start) {
        Some(p) => p,
        None => {
            return None;
        },
    };
    if !(j1 < v.len() && v[j1] == ',') {
        proof {
            let s1 = v@.skip(j1 as int);
            if s1.len() >= 1 {
                assert(s1[0] == v@[j1 as int]);
            }
        }
        return None;
    }
    proof {
        assert(v@.skip(j1 as int)[0] == ',');
        assert(v@.skip(j1 as int).skip(1) =~= v@.skip((j1 + 1) as int));
    }
    let (title, j3) = match parse_field_exec(v, j1 + 1) {
        Some(p) => p,
        None => {
            return None;
        },
    };
    if !(j3 < v.len() && v[j3] == ',') {
        proof {
            let s3 = v@.skip(j3 as int);
            if s3.len() >= 1 {
                assert(s3[0] == v@[j3 as int]);
            }
        }
        return None;
    }
    proof {
        assert(v@.skip(j3 as int)[0] == ',');
        assert(v@.skip(j3 as int).skip(1) =~= v@.skip((j3 + 1) as int));
    }
    let (description, j5) = match parse_field_exec(v, j3 + 1) {
        Some(p) => p,
        None => {
            return None;
        },
    };
    if !(j5 < v.len() && v[j5] == ',') {
        proof {
            let s5 = v@.skip(j5 as int);
            if s5.len() >= 1 {
                assert(s5[0] == v@[j5 as int]);
            }
        }
        return None;
    }
    proof {
        assert(v@.skip(j5 as int)[0] == ',');
        assert(v@.skip(j5 as int).skip(1) =~= v@.skip((j5 + 1) as int));
    }
    let (is_done, j7) = match parse_bool_exec(v, j5 + 1) {
        Some(p) => p,
        None => {
            return None;
        },
    };
    let ghost idv = id@;
    let ghost titlev = title@;
    let ghost descv = description@;
    let t = Task::new(id, title, description, is_done);
    proof {
        assert(t@ == (TaskView { id: idv, title: titlev, description: descv, is_done }));
        assert(parse_task(v@.skip(start as int)) == Some((t@, v@.skip(j7 as int))));
    }
    Some((t, j7))
}

/// Reads a whole file's text back into tasks. Succeeds exactly on what
/// [`spec_parse`] accepts and yields exactly what it says; any malformed
/// content fails as one decoding error, with no partial collection.
pub fn decode(text: &str) -> (r: Result<Vec<Task>, TodoError>)
    ensures
        match r {
            Ok(ts) => spec_parse(text@) == Some(views(ts@)),
            Err(e) => e == TodoError::DecodeError && spec_parse(text@) is None,
        },
{
    let v = str_to_chars(text);
    if v.len() == 0 {
        let empty_tasks: Vec<Task> = Vec::new();
        proof {
            assert(views(empty_tasks@) =~= Seq::<TaskView>::empty());
        }
        return Ok(empty_tasks);
    }
    let h = str_to_chars("id,title,description,is_done\n");
    proof {
        reveal_strlit("id,title,description,is_done\n");
        assert(h@ =~= header_text());
    }
    if v.len() < h.len() {
        return Err(TodoError::DecodeError);
    }
    let mut k: usize = 0;
    while k < h.len()
        invariant
            k <= h.len() <= v.len(),
            h@ == header_text(),
            v@ == text@,
            forall|j: int| 0 <= j < k ==> v@[j] == header_text()[j],
        decreases h.len() - k,
    {
        if v[k] != h[k] {
            proof {
                assert(text@.take(header_text().len() as int)[k as int] != header_text()[k as int]);
            }
            return Err(TodoError::DecodeError);
        }
        k += 1;
    }
    let hl = h.len();
    let mut out: Vec<Task> = Vec::new();
    let mut i = hl;
    proof {
        assert(text@.take(hl as int) =~= header_text());
        assert(spec_parse(text@) == parse_tasks(text@.skip(hl as int)));
        assert(views(out@) =~= Seq::<TaskView>::empty());
        match parse_tasks(text@.skip(hl as int)) {
            Some(ts) => {
                assert(views(out@) + ts =~= ts);
            },
            None => {},
        }
    }
    while i < v.len()
        invariant
            hl == header_text().len(),
            hl <= i <= v.len(),
            v@ == text@,
            spec_parse(text@) == with_tasks_prefix(views(out@), parse_tasks(v@.skip(i as int))),
        decreases v.len() - i,
    {
        match parse_task_exec(&v, i) {
            None => {
                proof {
                    assert(v@.skip(i as int).len() > 0);
                }
                return Err(TodoError::DecodeError);
            },
            Some((t, j)) => {
                proof {
                    assert(v@.skip(i as int).len() > 0);
                    assert(parse_tasks(v@.skip(i as int)) == with_tasks_prefix(
                        seq![t@],
                        parse_tasks(v@.skip(j as int)),
                    ));
                    lemma_with_tasks_prefix_assoc(
                        views(out@),
                        seq![t@],
                        parse_tasks(v@.skip(j as int)),
                    );
                    assert(views(out@.push(t)) =~= views(out@) + seq![t@]);
                }
                out.push(t);
                i = j;
            },
        }
    }
    proof {
        assert(v@.skip(i as int).len() == 0);
        assert(views(out@) + Seq::<TaskView>::empty() =~= views(out@));
    }
    Ok(out)
}

} // verus!
