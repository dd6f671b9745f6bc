//! The durable format: one structured, human-readable record list,
//! written in full on every save.
//!
//! A collection is rendered as a bracketed list of records, one per
//! task in order, each record an object with the fields of the task
//! under their names. Text fields are quoted, with `"` and `\` escaped
//! by a backslash; the id is written in decimal; absent optional
//! fields are written `null`. `encode_tasks` produces exactly this
//! form and `parse_tasks` accepts exactly this form, so that a saved
//! collection loads back as an equal collection
//! (`lemma_round_trip`), and anything else is rejected as corrupt
//! rather than guessed at.

use vstd::prelude::*;
use vstd::string::*;
use crate::model::{Task, TaskView, Priority, tasks_view, opt_view};

verus! {

// ===== The encoding, as a mathematical function =====

/// A character inside a quoted field: `"` and `\` get a backslash.
pub open spec fn esc_char(c: char) -> Seq<char> {
    if c == '"' || c == '\\' {
        seq!['\\', c]
    } else {
        seq![c]
    }
}

pub open spec fn escape(s: Seq<char>) -> Seq<char>
    decreases s.len(),
{
    if s.len() == 0 {
        Seq::empty()
    } else {
        esc_char(s[0]) + escape(s.drop_first())
    }
}

/// A quoted text field.
pub open spec fn quoted(s: Seq<char>) -> Seq<char> {
    seq!['"'] + escape(s) + seq!['"']
}

pub open spec fn digit_char(d: nat) -> char {
    if d == 0 {
        '0'
    } else if d == 1 {
        '1'
    } else if d == 2 {
        '2'
    } else if d == 3 {
        '3'
    } else if d == 4 {
        '4'
    } else if d == 5 {
        '5'
    } else if d == 6 {
        '6'
    } else if d == 7 {
        '7'
    } else if d == 8 {
        '8'
    } else {
        '9'
    }
}

/// The decimal rendering of `n`, most significant digit first, no
/// leading zero except for `0` itself.
pub open spec fn dec_digits(n: nat) -> Seq<char>
    decreases n,
{
    if n < 10 {
        seq![digit_char(n)]
    } else {
        dec_digits(n / 10) + seq![digit_char(n % 10)]
    }
}

pub open spec fn enc_bool(b: bool) -> Seq<char> {
    if b {
        "true"@
    } else {
        "false"@
    }
}

pub open spec fn enc_priority(p: Priority) -> Seq<char> {
    match p {
        Priority::Low => "\"Low\""@,
        Priority::Medium => "\"Medium\""@,
        Priority::High => "\"High\""@,
    }
}

/// An optional text field: `null` when absent, quoted when present.
pub open spec fn enc_opt(o: Option<Seq<char>>) -> Seq<char> {
    match o {
        None => "null"@,
        Some(s) => quoted(s),
    }
}

/// One record, every field under its name.
pub open spec fn enc_task(t: TaskView) -> Seq<char> {
    "{\"id\":"@ + dec_digits(t.id) + ",\"description\":"@ + quoted(t.description)
        + ",\"completed\":"@ + enc_bool(t.completed) + ",\"category\":"@ + quoted(t.category)
        + ",\"priority\":"@ + enc_priority(t.priority) + ",\"due_date\":"@ + enc_opt(t.due_date)
        + ",\"created_at\":"@ + quoted(t.created_at) + ",\"completed_at\":"@ + enc_opt(
        t.completed_at,
    ) + "}"@
}

pub open spec fn enc_list_inner(ts: Seq<TaskView>) -> Seq<char>
    decreases ts.len(),
{
    if ts.len() == 0 {
        Seq::empty()
    } else if ts.len() == 1 {
        enc_task(ts[0])
    } else {
        enc_list_inner(ts.drop_last()) + ","@ + enc_task(ts.last())
    }
}

/// The whole durable representation of a collection.
pub open spec fn enc_collection(ts: Seq<TaskView>) -> Seq<char> {
    "["@ + enc_list_inner(ts) + "]"@
}

// ===== The encoder =====

proof fn lemma_escape_snoc(s: Seq<char>, c: char)
    ensures
        escape(s.push(c)) == escape(s) + esc_char(c),
    decreases s.len(),
{
    let p = s.push(c);
    if s.len() == 0 {
        assert(p.len() == 1 && p[0] == c);
        assert(p.drop_first() =~= Seq::<char>::empty());
        assert(escape(p.drop_first()) == Seq::<char>::empty());
        assert(escape(p) == esc_char(c) + escape(p.drop_first()));
        assert(escape(s) == Seq::<char>::empty());
        assert(escape(p) =~= escape(s) + esc_char(c));
    } else {
        assert(p[0] == s[0]);
        assert(p.drop_first() =~= s.drop_first().push(c));
        lemma_escape_snoc(s.drop_first(), c);
        assert(escape(p) == esc_char(p[0]) + escape(p.drop_first()));
        assert(escape(s) == esc_char(s[0]) + escape(s.drop_first()));
        assert(escape(p) =~= escape(s) + esc_char(c));
    }
}

fn append_escaped(out: &mut String, s: &str)
    ensures
        final(out)@ == old(out)@ + escape(s@),
{
    let n = s.unicode_len();
    let mut i: usize = 0;
    proof {
        assert(s@.take(0) =~= Seq::<char>::empty());
        assert(out@ =~= out@ + escape(s@.take(0)));
    }
    while i < n
        invariant
            n == s@.len(),
            0 <= i <= n,
            out@ == old(out)@ + escape(s@.take(i as int)),
        decreases n - i,
    {
        let c = s.get_char(i);
        if c == '"' {
            out.append("\\\"");
            proof {
                reveal_strlit("\\\"");
                assert("\\\""@ =~= esc_char('"'));
            }
        } else if c == '\\' {
            out.append("\\\\");
            proof {
                reveal_strlit("\\\\");
                assert("\\\\"@ =~= esc_char('\\'));
            }
        } else {
            let piece = s.substring_char(i, i + 1);
            out.append(piece);
            proof {
                assert(piece@ =~= esc_char(c));
            }
        }
        proof {
            assert(s@.take(i + 1) =~= s@.take(i as int).push(s@[i as int]));
            lemma_escape_snoc(s@.take(i as int), s@[i as int]);
            assert(out@ =~= old(out)@ + escape(s@.take(i + 1)));
        }
        i += 1;
    }
    proof {
        assert(s@.take(n as int) =~= s@);
    }
}

fn digit_str(d: usize) -> (r: &'static str)
    requires
        d < 10,
    ensures
        r@ == seq![digit_char(d as nat)],
{
    let r: &'static str = match d {
        0 => "0",
        1 => "1",
        2 => "2",
        3 => "3",
        4 => "4",
        5 => "5",
        6 => "6",
        7 => "7",
        8 => "8",
        _ => "9",
    };
    proof {
        reveal_strlit("0");
        reveal_strlit("1");
        reveal_strlit("2");
        reveal_strlit("3");
        reveal_strlit("4");
        reveal_strlit("5");
        reveal_strlit("6");
        reveal_strlit("7");
        reveal_strlit("8");
        reveal_strlit("9");
        assert(r@ =~= seq![digit_char(d as nat)]);
    }
    r
}

fn append_digits(out: &mut String, n: usize)
    ensures
        final(out)@ == old(out)@ + dec_digits(n as nat),
    decreases n,
{
    if n < 10 {
        out.append(digit_str(n));
    } else {
        append_digits(out, n / 10);
        out.append(digit_str(n % 10));
        proof {
            assert(old(out)@ + dec_digits(n as nat / 10) + seq![digit_char(n as nat % 10)]
                =~= old(out)@ + dec_digits(n as nat));
        }
    }
}

fn append_quoted(out: &mut String, s: &str)
    ensures
        final(out)@ == old(out)@ + quoted(s@),
{
    out.append("\"");
    append_escaped(out, s);
    out.append("\"");
    proof {
        reveal_strlit("\"");
        assert(old(out)@ + "\""@ + escape(s@) + "\""@ =~= old(out)@ + quoted(s@));
    }
}

fn append_opt(out: &mut String, o: &Option<String>)
    ensures
        final(out)@ == old(out)@ + enc_opt(opt_view(*o)),
{
    match o {
        None => {
            out.append("null");
        },
        Some(s) => {
            append_quoted(out, s.as_str());
        },
    }
}

fn append_bool(out: &mut String, b: bool)
    ensures
        final(out)@ == old(out)@ + enc_bool(b),
{
    if b {
        out.append("true");
    } else {
        out.append("false");
    }
}

fn append_priority(out: &mut String, p: Priority)
    ensures
        final(out)@ == old(out)@ + enc_priority(p),
{
    match p {
        Priority::Low => out.append("\"Low\""),
        Priority::Medium => out.append("\"Medium\""),
        Priority::High => out.append("\"High\""),
    }
}

fn append_task(out: &mut String, t: &Task)
    ensures
        final(out)@ == old(out)@ + enc_task(t@),
{
    out.append("{\"id\":");
    append_digits(out, t.id);
    out.append(",\"description\":");
    append_quoted(out, t.description.as_str());
    out.append(",\"completed\":");
    append_bool(out, t.completed);
    out.append(",\"category\":");
    append_quoted(out, t.category.as_str());
    out.append(",\"priority\":");
    append_priority(out, t.priority);
    out.append(",\"due_date\":");
    append_opt(out, &t.due_date);
    out.append(",\"created_at\":");
    append_quoted(out, t.created_at.as_str());
    out.append(",\"completed_at\":");
    append_opt(out, &t.completed_at);
    out.append("}");
    proof {
        assert(out@ =~= old(out)@ + enc_task(t@));
    }
}

proof fn lemma_enc_list_inner_snoc(ts: Seq<TaskView>, t: TaskView)
    ensures
        enc_list_inner(ts.push(t)) == if ts.len() == 0 {
            enc_task(t)
        } else {
            enc_list_inner(ts) + ","@ + enc_task(t)
        },
{
    let p = ts.push(t);
    assert(p.drop_last() =~= ts);
    assert(p.last() == t);
    if ts.len() == 0 {
        assert(enc_list_inner(p) == enc_task(p[0]));
    }
}

/// Renders the whole collection in the durable format.
pub fn encode_tasks(tasks: &Vec<Task>) -> (r: String)
    ensures
        r@ == enc_collection(tasks_view(tasks@)),
{
    let ghost s = tasks_view(tasks@);
    let mut out = String::new();
    out.append("[");
    let n = tasks.len();
    let mut i: usize = 0;
    proof {
        assert(s.take(0) =~= Seq::<TaskView>::empty());
        assert(out@ =~= "["@ + enc_list_inner(s.take(0)));
    }
    while i < n
        invariant
            n == tasks@.len(),
            s == tasks_view(tasks@),
            0 <= i <= n,
            out@ == "["@ + enc_list_inner(s.take(i as int)),
        decreases n - i,
    {
        if i > 0 {
            out.append(",");
        }
        append_task(&mut out, &tasks[i]);
        proof {
            assert(s.take(i + 1) =~= s.take(i as int).push(s[i as int]));
            lemma_enc_list_inner_snoc(s.take(i as int), s[i as int]);
            if i == 0 {
                assert(out@ =~= "["@ + enc_list_inner(s.take(i + 1)));
            } else {
                assert(out@ =~= "["@ + enc_list_inner(s.take(i + 1)));
            }
        }
        i += 1;
    }
    out.append("]");
    proof {
        assert(s.take(n as int) =~= s);
        assert(out@ =~= enc_collection(s));
    }
    out
}

// ===== The parser, as a mathematical function =====
//
// The parser is strict: it accepts exactly the text that the encoder
// produces for some collection, and yields `None` on everything else.
// Each piece takes the text still to be read and yields the parsed
// value together with the text after it.

/// Expects the literal `lit` and returns the text after it.
pub open spec fn parse_lit(s: Seq<char>, lit: Seq<char>) -> Option<Seq<char>> {
    if lit.len() <= s.len() && s.take(lit.len() as int) == lit {
        Some(s.skip(lit.len() as int))
    } else {
        None
    }
}

/// The inside of a quoted field, up to and over the closing quote.
pub open spec fn parse_string_body(s: Seq<char>) -> Option<(Seq<char>, Seq<char>)>
    decreases s.len(),
{
    if s.len() == 0 {
        None
    } else if s[0] == '"' {
        Some((Seq::empty(), s.drop_first()))
    } else if s[0] == '\\' {
        if s.len() >= 2 && (s[1] == '"' || s[1] == '\\') {
            match parse_string_body(s.skip(2)) {
                Some(p) => Some((seq![s[1]] + p.0, p.1)),
                None => None,
            }
        } else {
            None
        }
    } else {
        match parse_string_body(s.drop_first()) {
            Some(p) => Some((seq![s[0]] + p.0, p.1)),
            None => None,
        }
    }
}

/// A whole quoted field.
pub open spec fn parse_quoted(s: Seq<char>) -> Option<(Seq<char>, Seq<char>)> {
    if s.len() > 0 && s[0] == '"' {
        parse_string_body(s.drop_first())
    } else {
        None
    }
}

pub open spec fn is_digit(c: char) -> bool {
    c == '0' || c == '1' || c == '2' || c == '3' || c == '4' || c == '5' || c == '6' || c == '7'
        || c == '8' || c == '9'
}

pub open spec fn digit_val(c: char) -> nat {
    if c == '0' {
        0
    } else if c == '1' {
        1
    } else if c == '2' {
        2
    } else if c == '3' {
        3
    } else if c == '4' {
        4
    } else if c == '5' {
        5
    } else if c == '6' {
        6
    } else if c == '7' {
        7
    } else if c == '8' {
        8
    } else {
        9
    }
}

/// Reads digits greedily, folding them onto `acc`.
pub open spec fn parse_digits(s: Seq<char>, acc: nat) -> (nat, Seq<char>)
    decreases s.len(),
{
    if s.len() > 0 && is_digit(s[0]) {
        parse_digits(s.drop_first(), acc * 10 + digit_val(s[0]))
    } else {
        (acc, s)
    }
}

/// A decimal number that fits the id field.
pub open spec fn parse_number(s: Seq<char>) -> Option<(nat, Seq<char>)> {
    if s.len() == 0 || !is_digit(s[0]) {
        None
    } else {
        let r = parse_digits(s, 0);
        if r.0 <= usize::MAX as nat {
            Some(r)
        } else {
            None
        }
    }
}

pub open spec fn parse_bool(s: Seq<char>) -> Option<(bool, Seq<char>)> {
    match parse_lit(s, "true"@) {
        Some(rest) => Some((true, rest)),
        None => match parse_lit(s, "false"@) {
            Some(rest) => Some((false, rest)),
            None => None,
        },
    }
}

pub open spec fn parse_priority(s: Seq<char>) -> Option<(Priority, Seq<char>)> {
    match parse_lit(s, "\"Low\""@) {
        Some(rest) => Some((Priority::Low, rest)),
        None => match parse_lit(s, "\"Medium\""@) {
            Some(rest) => Some((Priority::Medium, rest)),
            None => match parse_lit(s, "\"High\""@) {
                Some(rest) => Some((Priority::High, rest)),
                None => None,
            },
        },
    }
}

pub open spec fn parse_opt(s: Seq<char>) -> Option<(Option<Seq<char>>, Seq<char>)> {
    match parse_lit(s, "null"@) {
        Some(rest) => Some((None, rest)),
        None => match parse_quoted(s) {
            Some(p) => Some((Some(p.0), p.1)),
            None => None,
        },
    }
}

/// One record, in exactly the shape the encoder writes.
pub open spec fn parse_task(s: Seq<char>) -> Option<(TaskView, Seq<char>)> {
    match parse_lit(s, "{\"id\":"@) {
        None => None,
        Some(s1) => match parse_number(s1) {
            None => None,
            Some((id, s2)) => match parse_lit(s2, ",\"description\":"@) {
                None => None,
                Some(s3) => match parse_quoted(s3) {
                    None => None,
                    Some((description, s4)) => match parse_lit(s4, ",\"completed\":"@) {
                        None => None,
                        Some(s5) => match parse_bool(s5) {
                            None => None,
                            Some((completed, s6)) => match parse_lit(s6, ",\"category\":"@) {
                                None => None,
                                Some(s7) => match parse_quoted(s7) {
                                    None => None,
                                    Some((category, s8)) => match parse_lit(
                                        s8,
                                        ",\"priority\":"@,
                                    ) {
                                        None => None,
                                        Some(s9) => match parse_priority(s9) {
                                            None => None,
                                            Some((priority, s10)) => match parse_lit(
                                                s10,
                                                ",\"due_date\":"@,
                                            ) {
                                                None => None,
                                                Some(s11) => match parse_opt(s11) {
                                                    None => None,
                                                    Some((due_date, s12)) => match parse_lit(
                                                        s12,
                                                        ",\"created_at\":"@,
                                                    ) {
                                                        None => None,
                                                        Some(s13) => match parse_quoted(s13) {
                                                            None => None,
                                                            Some((created_at, s14)) => match parse_lit(
                                                                s14,
                                                                ",\"completed_at\":"@,
                                                            ) {
                                                                None => None,
                                                                Some(s15) => match parse_opt(s15) {
                                                                    None => None,
                                                                    Some((completed_at, s16)) => match parse_lit(
                                                                        s16,
                                                                        "}"@,
                                                                    ) {
                                                                        None => None,
                                                                        Some(s17) => Some(
                                                                            (
                                                                                TaskView {
                                                                                    id,
                                                                                    description,
                                                                                    completed,
                                                                                    category,
                                                                                    priority,
                                                                                    due_date,
                                                                                    created_at,
                                                                                    completed_at,
                                                                                },
                                                                                s17,
                                                                            ),
                                                                        ),
                                                                    },
                                                                },
                                                            },
                                                        },
                                                    },
                                                },
                                            },
                                        },
                                    },
                                },
                            },
                        },
                    },
                },
            },
        },
    }
}

proof fn lemma_parse_string_body_len(s: Seq<char>)
    ensures
        match parse_string_body(s) {
            Some(p) => p.1.len() < s.len(),
            None => true,
        },
    decreases s.len(),
{
    if s.len() == 0 {
    } else if s[0] == '"' {
    } else if s[0] == '\\' {
        if s.len() >= 2 && (s[1] == '"' || s[1] == '\\') {
            lemma_parse_string_body_len(s.skip(2));
        }
    } else {
        lemma_parse_string_body_len(s.drop_first());
    }
}

proof fn lemma_parse_digits_len(s: Seq<char>, acc: nat)
    ensures
        parse_digits(s, acc).1.len() <= s.len(),
    decreases s.len(),
{
    if s.len() > 0 && is_digit(s[0]) {
        lemma_parse_digits_len(s.drop_first(), acc * 10 + digit_val(s[0]));
    }
}

/// Whatever a record parse leaves behind is strictly shorter than what
/// it was given.
proof fn lemma_parse_task_len(s: Seq<char>)
    ensures
        match parse_task(s) {
            Some(p) => p.1.len() < s.len(),
            None => true,
        },
{
    reveal_strlit("{\"id\":");
    reveal_strlit(",\"description\":");
    reveal_strlit(",\"completed\":");
    reveal_strlit(",\"category\":");
    reveal_strlit(",\"priority\":");
    reveal_strlit(",\"due_date\":");
    reveal_strlit(",\"created_at\":");
    reveal_strlit(",\"completed_at\":");
    reveal_strlit("}");
    reveal_strlit("true");
    reveal_strlit("false");
    reveal_strlit("null");
    reveal_strlit("\"Low\"");
    reveal_strlit("\"Medium\"");
    reveal_strlit("\"High\"");
    if parse_task(s) is Some {
        let s1 = parse_lit(s, "{\"id\":"@)->Some_0;
        lemma_parse_digits_len(s1, 0);
        let s2 = parse_number(s1)->Some_0.1;
        let s3 = parse_lit(s2, ",\"description\":"@)->Some_0;
        lemma_parse_string_body_len(s3.drop_first());
        let s4 = parse_quoted(s3)->Some_0.1;
        let s5 = parse_lit(s4, ",\"completed\":"@)->Some_0;
        let s6 = parse_bool(s5)->Some_0.1;
        let s7 = parse_lit(s6, ",\"category\":"@)->Some_0;
        lemma_parse_string_body_len(s7.drop_first());
        let s8 = parse_quoted(s7)->Some_0.1;
        let s9 = parse_lit(s8, ",\"priority\":"@)->Some_0;
        let s10 = parse_priority(s9)->Some_0.1;
        let s11 = parse_lit(s10, ",\"due_date\":"@)->Some_0;
        if parse_lit(s11, "null"@) is None {
            lemma_parse_string_body_len(s11.drop_first());
        }
        let s12 = parse_opt(s11)->Some_0.1;
        let s13 = parse_lit(s12, ",\"created_at\":"@)->Some_0;
        lemma_parse_string_body_len(s13.drop_first());
        let s14 = parse_quoted(s13)->Some_0.1;
        let s15 = parse_lit(s14, ",\"completed_at\":"@)->Some_0;
        if parse_lit(s15, "null"@) is None {
            lemma_parse_string_body_len(s15.drop_first());
        }
        let s16 = parse_opt(s15)->Some_0.1;
        let s17 = parse_lit(s16, "}"@)->Some_0;
        assert(s17.len() < s.len());
    }
}

/// The records after the first: either the closing bracket, or a comma
/// and one more record, again and again.
pub open spec fn parse_tasks_rest(s: Seq<char>, acc: Seq<TaskView>) -> Option<
    (Seq<TaskView>, Seq<char>),
>
    decreases s.len(),
    via parse_tasks_rest_decreases
{
    if s.len() == 0 {
        None
    } else if s[0] == ']' {
        Some((acc, s.drop_first()))
    } else if s[0] == ',' {
        match parse_task(s.drop_first()) {
            Some(p) => parse_tasks_rest(p.1, acc.push(p.0)),
            None => None,
        }
    } else {
        None
    }
}

#[via_fn]
proof fn parse_tasks_rest_decreases(s: Seq<char>, acc: Seq<TaskView>) {
    if s.len() > 0 && s[0] != ']' && s[0] == ',' {
        lemma_parse_task_len(s.drop_first());
    }
}

pub open spec fn finish_tasks(r: Option<(Seq<TaskView>, Seq<char>)>) -> Option<Seq<TaskView>> {
    match r {
        Some(q) => if q.1.len() == 0 {
            Some(q.0)
        } else {
            None
        },
        None => None,
    }
}

/// A whole durable store: the bracketed record list and nothing after it.
pub open spec fn parse_collection(s: Seq<char>) -> Option<Seq<TaskView>> {
    match parse_lit(s, "["@) {
        None => None,
        Some(s1) => if s1.len() > 0 && s1[0] == ']' {
            if s1.len() == 1 {
                Some(Seq::empty())
            } else {
                None
            }
        } else {
            match parse_task(s1) {
                None => None,
                Some(p) => finish_tasks(parse_tasks_rest(p.1, seq![p.0])),
            }
        },
    }
}

// ===== The parser =====
//
// Each function reads at a character position `i` in `s` and mirrors
// the corresponding piece of the mathematical parser on the text from
// `i` on.

fn is_digit_char(c: char) -> (r: bool)
    ensures
        r == is_digit(c),
{
    c == '0' || c == '1' || c == '2' || c == '3' || c == '4' || c == '5' || c == '6' || c == '7'
        || c == '8' || c == '9'
}

fn digit_value(c: char) -> (r: usize)
    requires
        is_digit(c),
    ensures
        r < 10,
        r as nat == digit_val(c),
{
    if c == '0' {
        0
    } else if c == '1' {
        1
    } else if c == '2' {
        2
    } else if c == '3' {
        3
    } else if c == '4' {
        4
    } else if c == '5' {
        5
    } else if c == '6' {
        6
    } else if c == '7' {
        7
    } else if c == '8' {
        8
    } else {
        9
    }
}

fn expect_lit(s: &str, n: usize, i: usize, lit: &str) -> (r: Option<usize>)
    requires
        n == s@.len(),
        i <= n,
    ensures
        match r {
            Some(j) => i <= j <= n && parse_lit(s@.skip(i as int), lit@) == Some(
                s@.skip(j as int),
            ),
            None => parse_lit(s@.skip(i as int), lit@) is None,
        },
{
    let ghost sub = s@.skip(i as int);
    let m = lit.unicode_len();
    if m > n - i {
        proof {
            assert(lit@.len() > sub.len());
        }
        return None;
    }
    let mut k: usize = 0;
    while k < m
        invariant
            n == s@.len(),
            m == lit@.len(),
            i <= n,
            m <= n - i,
            0 <= k <= m,
            sub == s@.skip(i as int),
            forall|t: int| 0 <= t < k ==> sub[t] == lit@[t],
        decreases m - k,
    {
        let cs = s.get_char(i + k);
        let cl = lit.get_char(k);
        proof {
            assert(sub[k as int] == s@[i + k]);
        }
        if cs != cl {
            proof {
                assert(sub.take(m as int)[k as int] == sub[k as int]);
                assert(sub.take(m as int) != lit@);
            }
            return None;
        }
        k += 1;
    }
    proof {
        assert(sub.take(m as int) =~= lit@);
        assert(sub.skip(m as int) =~= s@.skip(i + m));
    }
    Some(i + m)
}

fn parse_string_at(s: &str, n: usize, i: usize) -> (r: Option<(String, usize)>)
    requires
        n == s@.len(),
        i <= n,
    ensures
        match r {
            Some(p) => i < p.1 <= n && parse_string_body(s@.skip(i as int)) == Some(
                (p.0@, s@.skip(p.1 as int)),
            ),
            None => parse_string_body(s@.skip(i as int)) is None,
        },
    decreases n - i,
{
    let ghost sub = s@.skip(i as int);
    if i >= n {
        return None;
    }
    let c = s.get_char(i);
    proof {
        assert(sub[0] == s@[i as int]);
    }
    if c == '"' {
        proof {
            assert(sub.drop_first() =~= s@.skip(i + 1));
        }
        return Some((String::new(), i + 1));
    }
    if c == '\\' {
        if i + 1 >= n {
            return None;
        }
        let c2 = s.get_char(i + 1);
        proof {
            assert(sub[1] == s@[i + 1]);
        }
        if c2 == '"' || c2 == '\\' {
            proof {
                assert(sub.skip(2) =~= s@.skip(i + 2));
            }
            match parse_string_at(s, n, i + 2) {
                Some((v, j)) => {
                    let piece = s.substring_char(i + 1, i + 2);
                    let combined = String::from_str(piece).concat(v.as_str());
                    proof {
                        assert(piece@ =~= seq![sub[1]]);
                        assert(combined@ == seq![sub[1]] + v@);
                    }
                    return Some((combined, j));
                },
                None => {
                    return None;
                },
            }
        } else {
            return None;
        }
    }
    proof {
        assert(sub.drop_first() =~= s@.skip(i + 1));
    }
    match parse_string_at(s, n, i + 1) {
        Some((v, j)) => {
            let piece = s.substring_char(i, i + 1);
            let combined = String::from_str(piece).concat(v.as_str());
            proof {
                assert(piece@ =~= seq![sub[0]]);
                assert(combined@ == seq![sub[0]] + v@);
            }
            Some((combined, j))
        },
        None => None,
    }
}

fn parse_quoted_at(s: &str, n: usize, i: usize) -> (r: Option<(String, usize)>)
    requires
        n == s@.len(),
        i <= n,
    ensures
        match r {
            Some(p) => i < p.1 <= n && parse_quoted(s@.skip(i as int)) == Some(
                (p.0@, s@.skip(p.1 as int)),
            ),
            None => parse_quoted(s@.skip(i as int)) is None,
        },
{
    let ghost sub = s@.skip(i as int);
    if i >= n {
        return None;
    }
    let c = s.get_char(i);
    proof {
        assert(sub[0] == s@[i as int]);
    }
    if c != '"' {
        return None;
    }
    proof {
        assert(sub.drop_first() =~= s@.skip(i + 1));
    }
    parse_string_at(s, n, i + 1)
}

proof fn lemma_parse_digits_ge(s: Seq<char>, acc: nat)
    ensures
        parse_digits(s, acc).0 >= acc,
    decreases s.len(),
{
    if s.len() > 0 && is_digit(s[0]) {
        lemma_parse_digits_ge(s.drop_first(), acc * 10 + digit_val(s[0]));
    }
}

fn parse_number_at(s: &str, n: usize, i: usize) -> (r: Option<(usize, usize)>)
    requires
        n == s@.len(),
        i <= n,
    ensures
        match r {
            Some(p) => i < p.1 <= n && parse_number(s@.skip(i as int)) == Some(
                (p.0 as nat, s@.skip(p.1 as int)),
            ),
            None => parse_number(s@.skip(i as int)) is None,
        },
{
    let ghost sub = s@.skip(i as int);
    if i >= n {
        return None;
    }
    let c0 = s.get_char(i);
    proof {
        assert(sub[0] == s@[i as int]);
    }
    if !is_digit_char(c0) {
        return None;
    }
    let mut acc: usize = digit_value(c0);
    let mut j: usize = i + 1;
    proof {
        assert(sub.drop_first() =~= s@.skip(i + 1));
        assert(parse_digits(sub, 0) == parse_digits(s@.skip(j as int), acc as nat));
    }
    loop
        invariant
            n == s@.len(),
            sub == s@.skip(i as int),
            i < j <= n,
            parse_digits(sub, 0) == parse_digits(s@.skip(j as int), acc as nat),
        decreases n - j,
    {
        if j >= n {
            proof {
                assert(s@.skip(j as int).len() == 0);
                assert(parse_digits(sub, 0) == (acc as nat, s@.skip(j as int)));
            }
            return Some((acc, j));
        }
        let c = s.get_char(j);
        proof {
            assert(s@.skip(j as int)[0] == s@[j as int]);
        }
        if !is_digit_char(c) {
            proof {
                assert(parse_digits(sub, 0) == (acc as nat, s@.skip(j as int)));
            }
            return Some((acc, j));
        }
        let d = digit_value(c);
        proof {
            assert(s@.skip(j as int).drop_first() =~= s@.skip(j + 1));
        }
        if acc > (usize::MAX - d) / 10 {
            proof {
                let m = usize::MAX as nat;
                let q = (m - d as nat) / 10;
                vstd::arithmetic::div_mod::lemma_fundamental_div_mod((m - d as nat) as int, 10);
                assert(acc as nat * 10 + d as nat > m) by (nonlinear_arith)
                    requires
                        acc as nat > q,
                        m - d as nat == 10 * q + (m - d as nat) % 10,
                        (m - d as nat) % 10 < 10,
                ;
                lemma_parse_digits_ge(s@.skip(j + 1), acc as nat * 10 + digit_val(s@[j as int]));
                assert(parse_digits(sub, 0).0 > m);
            }
            return None;
        }
        proof {
            let m = usize::MAX as nat;
            let q = (m - d as nat) / 10;
            vstd::arithmetic::div_mod::lemma_fundamental_div_mod((m - d as nat) as int, 10);
            assert(acc as nat * 10 + d as nat <= m) by (nonlinear_arith)
                requires
                    acc as nat <= q,
                    m - d as nat == 10 * q + (m - d as nat) % 10,
                    0 <= (m - d as nat) % 10,
            ;
        }
        acc = acc * 10 + d;
        j += 1;
    }
}

fn parse_bool_at(s: &str, n: usize, i: usize) -> (r: Option<(bool, usize)>)
    requires
        n == s@.len(),
        i <= n,
    ensures
        match r {
            Some(p) => i <= p.1 <= n && parse_bool(s@.skip(i as int)) == Some(
                (p.0, s@.skip(p.1 as int)),
            ),
            None => parse_bool(s@.skip(i as int)) is None,
        },
{
    match expect_lit(s, n, i, "true") {
        Some(j) => Some((true, j)),
        None => match expect_lit(s, n, i, "false") {
            Some(j) => Some((false, j)),
            None => None,
        },
    }
}

fn parse_priority_at(s: &str, n: usize, i: usize) -> (r: Option<(Priority, usize)>)
    requires
        n == s@.len(),
        i <= n,
    ensures
        match r {
            Some(p) => i <= p.1 <= n && parse_priority(s@.skip(i as int)) == Some(
                (p.0, s@.skip(p.1 as int)),
            ),
            None => parse_priority(s@.skip(i as int)) is None,
        },
{
    match expect_lit(s, n, i, "\"Low\"") {
        Some(j) => Some((Priority::Low, j)),
        None => match expect_lit(s, n, i, "\"Medium\"") {
            Some(j) => Some((Priority::Medium, j)),
            None => match expect_lit(s, n, i, "\"High\"") {
                Some(j) => Some((Priority::High, j)),
                None => None,
            },
        },
    }
}

fn parse_opt_at(s: &str, n: usize, i: usize) -> (r: Option<(Option<String>, usize)>)
    requires
        n == s@.len(),
        i <= n,
    ensures
        match r {
            Some(p) => i <= p.1 <= n && parse_opt(s@.skip(i as int)) == Some(
                (opt_view(p.0), s@.skip(p.1 as int)),
            ),
            None => parse_opt(s@.skip(i as int)) is None,
        },
{
    match expect_lit(s, n, i, "null") {
        Some(j) => Some((None, j)),
        None => match parse_quoted_at(s, n, i) {
            Some((v, j)) => Some((Some(v), j)),
            None => None,
        },
    }
}

fn parse_task_at(s: &str, n: usize, i: usize) -> (r: Option<(Task, usize)>)
    requires
        n == s@.len(),
        i <= n,
    ensures
        match r {
            Some(p) => i <= p.1 <= n && parse_task(s@.skip(i as int)) == Some(
                (p.0@, s@.skip(p.1 as int)),
            ),
            None => parse_task(s@.skip(i as int)) is None,
        },
{
    let i1 = match expect_lit(s, n, i, "{\"id\":") {
        Some(j) => j,
        None => {
            return None;
        },
    };
    let (id, i2) = match parse_number_at(s, n, i1) {
        Some(p) => p,
        None => {
            return None;
        },
    };
    let i3 = match expect_lit(s, n, i2, ",\"description\":") {
        Some(j) => j,
        None => {
            return None;
        },
    };
    let (description, i4) = match parse_quoted_at(s, n, i3) {
        Some(p) => p,
        None => {
            return None;
        },
    };
    let i5 = match expect_lit(s, n, i4, ",\"completed\":") {
        Some(j) => j,
        None => {
            return None;
        },
    };
    let (completed, i6) = match parse_bool_at(s, n, i5) {
        Some(p) => p,
        None => {
            return None;
        },
    };
    let i7 = match expect_lit(s, n, i6, ",\"category\":") {
        Some(j) => j,
        None => {
            return None;
        },
    };
    let (category, i8) = match parse_quoted_at(s, n, i7) {
        Some(p) => p,
        None => {
            return None;
        },
    };
    let i9 = match expect_lit(s, n, i8, ",\"priority\":") {
        Some(j) => j,
        None => {
            return None;
        },
    };
    let (priority, i10) = match parse_priority_at(s, n, i9) {
        Some(p) => p,
        None => {
            return None;
        },
    };
    let i11 = match expect_lit(s, n, i10, ",\"due_date\":") {
        Some(j) => j,
        None => {
            return None;
        },
    };
    let (due_date, i12) = match parse_opt_at(s, n, i11) {
        Some(p) => p,
        None => {
            return None;
        },
    };
    let i13 = match expect_lit(s, n, i12, ",\"created_at\":") {
        Some(j) => j,
        None => {
            return None;
        },
    };
    let (created_at, i14) = match parse_quoted_at(s, n, i13) {
        Some(p) => p,
        None => {
            return None;
        },
    };
    let i15 = match expect_lit(s, n, i14, ",\"completed_at\":") {
        Some(j) => j,
        None => {
            return None;
        },
    };
    let (completed_at, i16) = match parse_opt_at(s, n, i15) {
        Some(p) => p,
        None => {
            return None;
        },
    };
    let i17 = match expect_lit(s, n, i16, "}") {
        Some(j) => j,
        None => {
            return None;
        },
    };
    let t = Task { id, description, completed, category, priority, due_date, created_at, completed_at };
    Some((t, i17))
}

/// Reads a whole durable store back into a collection. Yields `None`
/// on any text that `encode_tasks` could not have written: the store
/// is then corrupt, and the caller decides what to do.
pub fn parse_tasks(s: &str) -> (r: Option<Vec<Task>>)
    ensures
        match r {
            Some(v) => parse_collection(s@) == Some(tasks_view(v@)),
            None => parse_collection(s@) is None,
        },
{
    let n = s.unicode_len();
    proof {
        assert(s@.skip(0) =~= s@);
    }
    let i1 = match expect_lit(s, n, 0, "[") {
        Some(j) => j,
        None => {
            return None;
        },
    };
    let ghost s1 = s@.skip(i1 as int);
    if i1 < n {
        let c = s.get_char(i1);
        proof {
            assert(s1[0] == s@[i1 as int]);
        }
        if c == ']' {
            if i1 + 1 == n {
                let out: Vec<Task> = Vec::new();
                proof {
                    assert(tasks_view(out@) =~= Seq::<TaskView>::empty());
                }
                return Some(out);
            } else {
                return None;
            }
        }
    }
    let (t0, first_end) = match parse_task_at(s, n, i1) {
        Some(p) => p,
        None => {
            return None;
        },
    };
    let mut out: Vec<Task> = Vec::new();
    out.push(t0);
    let mut j = first_end;
    proof {
        assert(tasks_view(out@) =~= seq![t0@]);
    }
    loop
        invariant
            n == s@.len(),
            0 <= j <= n,
            parse_collection(s@) == finish_tasks(
                parse_tasks_rest(s@.skip(j as int), tasks_view(out@)),
            ),
        decreases n - j,
    {
        let ghost subj = s@.skip(j as int);
        if j >= n {
            proof {
                assert(subj.len() == 0);
            }
            return None;
        }
        let c = s.get_char(j);
        proof {
            assert(subj[0] == s@[j as int]);
            assert(subj.drop_first() =~= s@.skip(j + 1));
        }
        if c == ']' {
            if j + 1 == n {
                proof {
                    assert(s@.skip(j + 1).len() == 0);
                }
                return Some(out);
            } else {
                proof {
                    assert(s@.skip(j + 1).len() > 0);
                }
                return None;
            }
        }
        if c != ',' {
            return None;
        }
        match parse_task_at(s, n, j + 1) {
            Some((t, j2)) => {
                proof {
                    lemma_parse_task_len(s@.skip(j + 1));
                    assert(tasks_view(out@.push(t)) == tasks_view(out@).push(t@));
                }
                out.push(t);
                j = j2;
            },
            None => {
                return None;
            },
        }
    }
}

// ===== Round trip: what the encoder writes, the parser reads back =====

proof fn lemma_parse_lit_of_enc(lit: Seq<char>, rest: Seq<char>)
    ensures
        parse_lit(lit + rest, lit) == Some(rest),
{
    let s = lit + rest;
    assert(s.take(lit.len() as int) =~= lit);
    assert(s.skip(lit.len() as int) =~= rest);
}

proof fn lemma_parse_string_of_escape(v: Seq<char>, rest: Seq<char>)
    ensures
        parse_string_body(escape(v) + seq!['"'] + rest) == Some((v, rest)),
    decreases v.len(),
{
    let s = escape(v) + seq!['"'] + rest;
    if v.len() == 0 {
        assert(escape(v) == Seq::<char>::empty());
        assert(s =~= seq!['"'] + rest);
        assert(s[0] == '"');
        assert(s.drop_first() =~= rest);
    } else {
        let c = v[0];
        let v2 = v.drop_first();
        lemma_parse_string_of_escape(v2, rest);
        assert(escape(v) == esc_char(c) + escape(v2));
        if c == '"' || c == '\\' {
            assert(esc_char(c) =~= seq!['\\', c]);
            assert(s[0] == '\\');
            assert(s[1] == c);
            assert(s.len() >= 2);
            assert(s.skip(2) =~= escape(v2) + seq!['"'] + rest);
            assert(seq![s[1]] + v2 =~= v);
        } else {
            assert(esc_char(c) =~= seq![c]);
            assert(s[0] == c);
            assert(s.drop_first() =~= escape(v2) + seq!['"'] + rest);
            assert(seq![s[0]] + v2 =~= v);
        }
    }
}

proof fn lemma_parse_quoted_of_enc(v: Seq<char>, rest: Seq<char>)
    ensures
        parse_quoted(quoted(v) + rest) == Some((v, rest)),
{
    let s = quoted(v) + rest;
    assert(s[0] == '"');
    assert(s.drop_first() =~= escape(v) + seq!['"'] + rest);
    lemma_parse_string_of_escape(v, rest);
}

/// Folding the digits of `n` onto `acc`, most significant first.
spec fn shift_acc(acc: nat, n: nat) -> nat
    decreases n,
{
    if n < 10 {
        acc * 10 + n
    } else {
        shift_acc(acc, n / 10) * 10 + n % 10
    }
}

proof fn lemma_digit_char_val(d: nat)
    requires
        d < 10,
    ensures
        is_digit(digit_char(d)),
        digit_val(digit_char(d)) == d,
{
}

proof fn lemma_parse_digits_of_dec(n: nat, acc: nat, rest: Seq<char>)
    ensures
        parse_digits(dec_digits(n) + rest, acc) == parse_digits(rest, shift_acc(acc, n)),
    decreases n,
{
    let s = dec_digits(n) + rest;
    if n < 10 {
        lemma_digit_char_val(n);
        assert(s[0] == digit_char(n));
        assert(s.drop_first() =~= rest);
    } else {
        lemma_digit_char_val(n % 10);
        let d = seq![digit_char(n % 10)];
        assert(s =~= dec_digits(n / 10) + (d + rest));
        lemma_parse_digits_of_dec(n / 10, acc, d + rest);
        let a2 = shift_acc(acc, n / 10);
        assert((d + rest)[0] == digit_char(n % 10));
        assert((d + rest).drop_first() =~= rest);
        assert(parse_digits(d + rest, a2) == parse_digits(rest, a2 * 10 + n % 10));
    }
}

proof fn lemma_shift_acc_zero(n: nat)
    ensures
        shift_acc(0, n) == n,
    decreases n,
{
    if n < 10 {
    } else {
        lemma_shift_acc_zero(n / 10);
        vstd::arithmetic::div_mod::lemma_fundamental_div_mod(n as int, 10);
    }
}

proof fn lemma_dec_digits_first(n: nat)
    ensures
        dec_digits(n).len() >= 1,
        is_digit(dec_digits(n)[0]),
    decreases n,
{
    if n < 10 {
        lemma_digit_char_val(n);
    } else {
        lemma_dec_digits_first(n / 10);
        assert(dec_digits(n)[0] == dec_digits(n / 10)[0]);
    }
}

proof fn lemma_parse_number_of_dec(n: nat, rest: Seq<char>)
    requires
        n <= usize::MAX as nat,
        rest.len() == 0 || !is_digit(rest[0]),
    ensures
        parse_number(dec_digits(n) + rest) == Some((n, rest)),
{
    let s = dec_digits(n) + rest;
    lemma_dec_digits_first(n);
    assert(s[0] == dec_digits(n)[0]);
    lemma_parse_digits_of_dec(n, 0, rest);
    lemma_shift_acc_zero(n);
    assert(parse_digits(rest, n) == (n, rest));
}

proof fn lemma_parse_bool_of_enc(b: bool, rest: Seq<char>)
    ensures
        parse_bool(enc_bool(b) + rest) == Some((b, rest)),
{
    reveal_strlit("true");
    reveal_strlit("false");
    let s = enc_bool(b) + rest;
    if b {
        lemma_parse_lit_of_enc("true"@, rest);
    } else {
        if "true"@.len() <= s.len() {
            assert(s.take(4)[0] == 'f');
            assert(s.take(4) != "true"@);
        }
        lemma_parse_lit_of_enc("false"@, rest);
    }
}

proof fn lemma_parse_priority_of_enc(p: Priority, rest: Seq<char>)
    ensures
        parse_priority(enc_priority(p) + rest) == Some((p, rest)),
{
    reveal_strlit("\"Low\"");
    reveal_strlit("\"Medium\"");
    reveal_strlit("\"High\"");
    let s = enc_priority(p) + rest;
    match p {
        Priority::Low => {
            lemma_parse_lit_of_enc("\"Low\""@, rest);
        },
        Priority::Medium => {
            if "\"Low\""@.len() <= s.len() {
                assert(s.take(5)[1] == 'M');
                assert(s.take(5) != "\"Low\""@);
            }
            lemma_parse_lit_of_enc("\"Medium\""@, rest);
        },
        Priority::High => {
            if "\"Low\""@.len() <= s.len() {
                assert(s.take(5)[1] == 'H');
                assert(s.take(5) != "\"Low\""@);
            }
            if "\"Medium\""@.len() <= s.len() {
                assert(s.take(8)[1] == 'H');
                assert(s.take(8) != "\"Medium\""@);
            }
            lemma_parse_lit_of_enc("\"High\""@, rest);
        },
    }
}

proof fn lemma_parse_opt_of_enc(o: Option<Seq<char>>, rest: Seq<char>)
    ensures
        parse_opt(enc_opt(o) + rest) == Some((o, rest)),
{
    reveal_strlit("null");
    let s = enc_opt(o) + rest;
    match o {
        None => {
            lemma_parse_lit_of_enc("null"@, rest);
        },
        Some(v) => {
            if "null"@.len() <= s.len() {
                assert(s.take(4)[0] == '"');
                assert(s.take(4) != "null"@);
            }
            lemma_parse_quoted_of_enc(v, rest);
        },
    }
}

#[verifier::rlimit(100)]
proof fn lemma_parse_task_of_enc(t: TaskView, rest: Seq<char>)
    requires
        t.id <= usize::MAX as nat,
    ensures
        parse_task(enc_task(t) + rest) == Some((t, rest)),
{
    reveal_strlit("{\"id\":");
    reveal_strlit(",\"description\":");
    reveal_strlit(",\"completed\":");
    reveal_strlit(",\"category\":");
    reveal_strlit(",\"priority\":");
    reveal_strlit(",\"due_date\":");
    reveal_strlit(",\"created_at\":");
    reveal_strlit(",\"completed_at\":");
    reveal_strlit("}");
    let e16 = "}"@ + rest;
    let e15 = enc_opt(t.completed_at) + e16;
    let e14 = ",\"completed_at\":"@ + e15;
    let e13 = quoted(t.created_at) + e14;
    let e12 = ",\"created_at\":"@ + e13;
    let e11 = enc_opt(t.due_date) + e12;
    let e10 = ",\"due_date\":"@ + e11;
    let e9 = enc_priority(t.priority) + e10;
    let e8 = ",\"priority\":"@ + e9;
    let e7 = quoted(t.category) + e8;
    let e6 = ",\"category\":"@ + e7;
    let e5 = enc_bool(t.completed) + e6;
    let e4 = ",\"completed\":"@ + e5;
    let e3 = quoted(t.description) + e4;
    let e2 = ",\"description\":"@ + e3;
    let e1 = dec_digits(t.id) + e2;
    let s = enc_task(t) + rest;
    assert(s =~= "{\"id\":"@ + e1);
    lemma_parse_lit_of_enc("{\"id\":"@, e1);
    assert(e2[0] == ',');
    lemma_parse_number_of_dec(t.id, e2);
    lemma_parse_lit_of_enc(",\"description\":"@, e3);
    lemma_parse_quoted_of_enc(t.description, e4);
    lemma_parse_lit_of_enc(",\"completed\":"@, e5);
    lemma_parse_bool_of_enc(t.completed, e6);
    lemma_parse_lit_of_enc(",\"category\":"@, e7);
    lemma_parse_quoted_of_enc(t.category, e8);
    lemma_parse_lit_of_enc(",\"priority\":"@, e9);
    lemma_parse_priority_of_enc(t.priority, e10);
    lemma_parse_lit_of_enc(",\"due_date\":"@, e11);
    lemma_parse_opt_of_enc(t.due_date, e12);
    lemma_parse_lit_of_enc(",\"created_at\":"@, e13);
    lemma_parse_quoted_of_enc(t.created_at, e14);
    lemma_parse_lit_of_enc(",\"completed_at\":"@, e15);
    lemma_parse_opt_of_enc(t.completed_at, e16);
    lemma_parse_lit_of_enc("}"@, rest);
    assert(parse_task(s) == Some((t, rest)));
}

/// The records after the first, each with its comma in front.
spec fn enc_tail(ts: Seq<TaskView>) -> Seq<char>
    decreases ts.len(),
{
    if ts.len() == 0 {
        Seq::empty()
    } else {
        ","@ + enc_task(ts[0]) + enc_tail(ts.drop_first())
    }
}

proof fn lemma_inner_front(ts: Seq<TaskView>)
    requires
        ts.len() >= 2,
    ensures
        enc_list_inner(ts) == enc_task(ts[0]) + ","@ + enc_list_inner(ts.drop_first()),
    decreases ts.len(),
{
    if ts.len() == 2 {
        assert(ts.drop_last() =~= seq![ts[0]]);
        assert(ts.drop_first() =~= seq![ts[1]]);
        assert(enc_list_inner(seq![ts[0]]) == enc_task(seq![ts[0]][0]));
        assert(enc_list_inner(seq![ts[1]]) == enc_task(seq![ts[1]][0]));
        assert(enc_list_inner(ts) =~= enc_task(ts[0]) + ","@ + enc_list_inner(ts.drop_first()));
    } else {
        let head = ts.drop_last();
        lemma_inner_front(head);
        assert(head.drop_first() =~= ts.drop_first().drop_last());
        assert(ts.drop_first().last() == ts.last());
        assert(enc_list_inner(ts) == enc_list_inner(head) + ","@ + enc_task(ts.last()));
        assert(enc_list_inner(ts.drop_first()) == enc_list_inner(ts.drop_first().drop_last())
            + ","@ + enc_task(ts.drop_first().last()));
        assert(enc_list_inner(ts) =~= enc_task(ts[0]) + ","@ + enc_list_inner(ts.drop_first()));
    }
}

proof fn lemma_inner_as_tail(ts: Seq<TaskView>)
    requires
        ts.len() >= 1,
    ensures
        enc_list_inner(ts) == enc_task(ts[0]) + enc_tail(ts.drop_first()),
    decreases ts.len(),
{
    if ts.len() == 1 {
        assert(enc_tail(ts.drop_first()) == Seq::<char>::empty());
        assert(enc_list_inner(ts) =~= enc_task(ts[0]) + enc_tail(ts.drop_first()));
    } else {
        lemma_inner_front(ts);
        lemma_inner_as_tail(ts.drop_first());
        assert(enc_tail(ts.drop_first()) == ","@ + enc_task(ts.drop_first()[0]) + enc_tail(
            ts.drop_first().drop_first(),
        ));
        assert(enc_list_inner(ts) =~= enc_task(ts[0]) + enc_tail(ts.drop_first()));
    }
}

proof fn lemma_parse_rest_of_enc(ts: Seq<TaskView>, acc: Seq<TaskView>, rest: Seq<char>)
    requires
        forall|i: int| 0 <= i < ts.len() ==> (#[trigger] ts[i]).id <= usize::MAX as nat,
    ensures
        parse_tasks_rest(enc_tail(ts) + "]"@ + rest, acc) == Some((acc + ts, rest)),
    decreases ts.len(),
{
    reveal_strlit("]");
    reveal_strlit(",");
    reveal_strlit("{\"id\":");
    let s = enc_tail(ts) + "]"@ + rest;
    if ts.len() == 0 {
        assert(s =~= "]"@ + rest);
        assert(s[0] == ']');
        assert(s.drop_first() =~= rest);
        assert(acc + ts =~= acc);
    } else {
        let t = ts[0];
        let ts2 = ts.drop_first();
        assert(s =~= ","@ + (enc_task(t) + (enc_tail(ts2) + "]"@ + rest)));
        assert(s[0] == ',');
        assert(s.drop_first() =~= enc_task(t) + (enc_tail(ts2) + "]"@ + rest));
        lemma_parse_task_of_enc(t, enc_tail(ts2) + "]"@ + rest);
        lemma_parse_rest_of_enc(ts2, acc.push(t), rest);
        assert(acc.push(t) + ts2 =~= acc + ts);
    }
}

#[verifier::rlimit(100)]
proof fn lemma_round_trip_nonempty(ts: Seq<TaskView>)
    requires
        ts.len() > 0,
        forall|i: int| 0 <= i < ts.len() ==> (#[trigger] ts[i]).id <= usize::MAX as nat,
    ensures
        parse_collection(enc_collection(ts)) == Some(ts),
{
    reveal_strlit("[");
    reveal_strlit("]");
    reveal_strlit("{\"id\":");
    let inner = enc_list_inner(ts);
    let s = enc_collection(ts);
    assert(s =~= "["@ + (inner + "]"@));
    lemma_parse_lit_of_enc("["@, inner + "]"@);
    let s1 = inner + "]"@;
    assert(parse_lit(s, "["@) == Some(s1));
    lemma_inner_as_tail(ts);
    let after = enc_tail(ts.drop_first()) + "]"@;
    assert(s1 =~= enc_task(ts[0]) + after);
    lemma_parse_task_of_enc(ts[0], after);
    assert(parse_task(s1) == Some((ts[0], after)));
    assert(parse_lit(s1, "{\"id\":"@) is Some);
    assert(s1[0] == s1.take(6)[0]);
    assert(s1[0] == '{');
    assert(s1.len() > 0 && s1[0] != ']');
    assert(enc_tail(ts.drop_first()) + "]"@ + Seq::<char>::empty() =~= after);
    lemma_parse_rest_of_enc(ts.drop_first(), seq![ts[0]], Seq::empty());
    assert(parse_tasks_rest(after, seq![ts[0]]) == Some(
        (seq![ts[0]] + ts.drop_first(), Seq::<char>::empty()),
    ));
    assert(seq![ts[0]] + ts.drop_first() =~= ts);
    assert(finish_tasks(parse_tasks_rest(after, seq![ts[0]])) == Some(ts));
    assert(parse_collection(s) == Some(ts));
}

/// The round trip: parsing what the encoder wrote for a collection
/// yields exactly that collection, for every combination of fields.
pub proof fn lemma_round_trip(ts: Seq<TaskView>)
    requires
        forall|i: int| 0 <= i < ts.len() ==> (#[trigger] ts[i]).id <= usize::MAX as nat,
    ensures
        parse_collection(enc_collection(ts)) == Some(ts),
{
    reveal_strlit("[");
    reveal_strlit("]");
    if ts.len() == 0 {
        let s = enc_collection(ts);
        assert(s =~= "["@ + (enc_list_inner(ts) + "]"@));
        lemma_parse_lit_of_enc("["@, enc_list_inner(ts) + "]"@);
        let s1 = enc_list_inner(ts) + "]"@;
        assert(s1 =~= "]"@);
        assert(s1.len() == 1 && s1[0] == ']');
    } else {
        lemma_round_trip_nonempty(ts);
    }
}

/// The round trip for a real task vector: its ids are machine
/// integers, so they always fit the id field, and saving then loading
/// it reproduces the collection.
pub proof fn lemma_round_trip_tasks(tasks: Seq<Task>)
    ensures
        parse_collection(enc_collection(tasks_view(tasks))) == Some(tasks_view(tasks)),
{
    assert forall|i: int| 0 <= i < tasks_view(tasks).len() implies (#[trigger] tasks_view(
        tasks,
    )[i]).id <= usize::MAX as nat by {
        assert(tasks_view(tasks)[i] == tasks[i]@);
    }
    lemma_round_trip(tasks_view(tasks));
}

} // verus!
