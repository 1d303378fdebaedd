use vstd::prelude::*;

use crate::job::Job;
use crate::text::str_eq;
use vstd::string::StrSliceExecFns;

verus! {

// The canonical wire text of a job: one JSON object, fields in a fixed
// order, strings escaped with the two-character escapes below. This module
// both renders that text and reads it back, and proves the encoding loses
// nothing: two jobs with the same wire text agree on every encoded field.

/// The escape of one character inside a JSON string.
pub open spec fn esc_char(c: char) -> Seq<char> {
    if c == '"' {
        seq!['\\', '"']
    } else if c == '\\' {
        seq!['\\', '\\']
    } else if c == '\n' {
        seq!['\\', 'n']
    } else if c == '\r' {
        seq!['\\', 'r']
    } else if c == '\t' {
        seq!['\\', 't']
    } else {
        seq![c]
    }
}

/// The escaped body of a JSON string.
pub open spec fn esc(s: Seq<char>) -> Seq<char>
    decreases s.len(),
{
    if s.len() == 0 {
        Seq::<char>::empty()
    } else {
        esc_char(s[0]) + esc(s.drop_first())
    }
}

/// A JSON string: quote, escaped body, quote.
pub open spec fn enc_str(s: Seq<char>) -> Seq<char> {
    seq!['"'] + (esc(s) + seq!['"'])
}

pub open spec fn lit_null() -> Seq<char> {
    seq!['n', 'u', 'l', 'l']
}

pub open spec fn lit_true() -> Seq<char> {
    seq!['t', 'r', 'u', 'e']
}

pub open spec fn lit_false() -> Seq<char> {
    seq!['f', 'a', 'l', 's', 'e']
}

/// An optional string: a JSON string, or null.
pub open spec fn enc_opt(o: Option<String>) -> Seq<char> {
    match o {
        Some(s) => enc_str(s@),
        None => lit_null(),
    }
}

/// An optional boolean: true, false, or null.
pub open spec fn enc_obool(o: Option<bool>) -> Seq<char> {
    match o {
        Some(true) => lit_true(),
        Some(false) => lit_false(),
        None => lit_null(),
    }
}

/// The comma-separated strings inside an argument array.
pub open spec fn enc_args_inner(args: Seq<Seq<char>>) -> Seq<char>
    decreases args.len(),
{
    if args.len() == 0 {
        Seq::<char>::empty()
    } else if args.len() == 1 {
        enc_str(args[0])
    } else {
        enc_str(args[0]) + (seq![','] + enc_args_inner(args.drop_first()))
    }
}

/// A JSON array of strings.
pub open spec fn enc_args(args: Seq<Seq<char>>) -> Seq<char> {
    seq!['['] + (enc_args_inner(args) + seq![']'])
}

/// The wire text from the name field on.
pub open spec fn enc_job_from_name(j: Job) -> Seq<char> {
    ",\"name\":"@ + (enc_str(j.name@) + enc_job_from_description(j))
}

/// The wire text from the description field on.
pub open spec fn enc_job_from_description(j: Job) -> Seq<char> {
    ",\"description\":"@ + (enc_opt(j.description) + enc_job_from_created(j))
}

/// The wire text from the creation timestamp on.
pub open spec fn enc_job_from_created(j: Job) -> Seq<char> {
    ",\"created_at\":"@ + (enc_str(j.created_at@) + enc_job_from_started(j))
}

/// The wire text from the start timestamp on.
pub open spec fn enc_job_from_started(j: Job) -> Seq<char> {
    ",\"started_at\":"@ + (enc_opt(j.started_at) + enc_job_from_completed(j))
}

/// The wire text from the completion timestamp on.
pub open spec fn enc_job_from_completed(j: Job) -> Seq<char> {
    ",\"completed_at\":"@ + (enc_opt(j.completed_at) + enc_job_from_action(j))
}

/// The wire text from the action object on.
pub open spec fn enc_job_from_action(j: Job) -> Seq<char> {
    ",\"action\":{\"cmd\":"@ + (enc_str(j.action.cmd@) + enc_job_from_args(j))
}

/// The wire text from the argument array on.
pub open spec fn enc_job_from_args(j: Job) -> Seq<char> {
    ",\"args\":"@ + (enc_args(j.action.args.deep_view()) + enc_job_from_variant(j))
}

/// The wire text from the variant label on.
pub open spec fn enc_job_from_variant(j: Job) -> Seq<char> {
    ",\"variant\":"@ + (enc_str(j.action.variant@) + enc_job_from_agent(j))
}

/// The wire text from the agent id on.
pub open spec fn enc_job_from_agent(j: Job) -> Seq<char> {
    "},\"agent_id\":"@ + (enc_str(j.agent_id@) + enc_job_from_results(j))
}

/// The wire text from the results field on.
pub open spec fn enc_job_from_results(j: Job) -> Seq<char> {
    ",\"results\":"@ + (enc_opt(j.result) + enc_job_from_success(j))
}

/// The wire text from the success flag on.
pub open spec fn enc_job_from_success(j: Job) -> Seq<char> {
    ",\"success\":"@ + (enc_obool(j.success) + "}"@)
}

/// The canonical wire text of a whole job. The submission flag is agent
/// state, not wire state, and is not encoded.
pub open spec fn enc_job(j: Job) -> Seq<char> {
    "{\"id\":"@ + (enc_str(j.id@) + enc_job_from_name(j))
}

/// Relies on String::push: appends exactly the one character.
#[verifier::external_body]
fn push_char(s: &mut String, c: char)
    ensures
        final(s)@ == old(s)@ + seq![c],
{
    s.push(c);
}

proof fn lemma_esc_push(s: Seq<char>, c: char)
    ensures
        esc(s.push(c)) == esc(s) + esc_char(c),
    decreases s.len(),
{
    if s.len() == 0 {
        assert(s.push(c).drop_first() =~= s);
        assert(s.push(c)[0] == c);
        assert(esc(s.push(c)) == esc_char(c) + esc(s));
        assert(esc(s) == Seq::<char>::empty());
        assert(esc_char(c) + Seq::<char>::empty() =~= esc_char(c));
        assert(Seq::<char>::empty() + esc_char(c) =~= esc_char(c));
    } else {
        assert(s.push(c).drop_first() =~= s.drop_first().push(c));
        lemma_esc_push(s.drop_first(), c);
        assert(esc(s.push(c)) =~= esc(s) + esc_char(c));
    }
}

/// Appends the JSON string form of `s`, escapes and quotes included.
fn append_json_string(out: &mut String, s: &str)
    ensures
        final(out)@ == old(out)@ + enc_str(s@),
{
    let ghost entry = out@;
    push_char(out, '"');
    let n = s.unicode_len();
    let mut i: usize = 0;
    while i < n
        invariant
            n == s@.len(),
            i <= n,
            out@ == entry + seq!['"'] + esc(s@.take(i as int)),
        decreases n - i,
    {
        let c = s.get_char(i);
        if c == '"' {
            push_char(out, '\\');
            push_char(out, '"');
        } else if c == '\\' {
            push_char(out, '\\');
            push_char(out, '\\');
        } else if c == '\n' {
            push_char(out, '\\');
            push_char(out, 'n');
        } else if c == '\r' {
            push_char(out, '\\');
            push_char(out, 'r');
        } else if c == '\t' {
            push_char(out, '\\');
            push_char(out, 't');
        } else {
            push_char(out, c);
        }
        proof {
            assert(s@.take(i as int + 1) =~= s@.take(i as int).push(s@[i as int]));
            lemma_esc_push(s@.take(i as int), s@[i as int]);
            assert(out@ =~= entry + seq!['"'] + esc(s@.take(i as int + 1)));
        }
        i = i + 1;
    }
    push_char(out, '"');
    proof {
        assert(s@.take(n as int) =~= s@);
        assert(out@ =~= entry + enc_str(s@));
    }
}

/// Appends a JSON string or the null literal.
fn append_json_opt(out: &mut String, o: &Option<String>)
    ensures
        final(out)@ == old(out)@ + enc_opt(*o),
{
    match o {
        Some(s) => append_json_string(out, s.as_str()),
        None => {
            out.append("null");
            proof {
                reveal_strlit("null");
                assert("null"@ =~= lit_null());
            }
        },
    }
}

/// Appends true, false, or the null literal.
fn append_json_obool(out: &mut String, o: &Option<bool>)
    ensures
        final(out)@ == old(out)@ + enc_obool(*o),
{
    match o {
        Some(b) => {
            if *b {
                out.append("true");
                proof {
                    reveal_strlit("true");
                    assert("true"@ =~= lit_true());
                }
            } else {
                out.append("false");
                proof {
                    reveal_strlit("false");
                    assert("false"@ =~= lit_false());
                }
            }
        },
        None => {
            out.append("null");
            proof {
                reveal_strlit("null");
                assert("null"@ =~= lit_null());
            }
        },
    }
}

proof fn lemma_enc_args_inner_push(args: Seq<Seq<char>>, x: Seq<char>)
    requires
        args.len() > 0,
    ensures
        enc_args_inner(args.push(x)) == enc_args_inner(args) + seq![','] + enc_str(x),
    decreases args.len(),
{
    if args.len() == 1 {
        assert(args.push(x).drop_first() =~= seq![x]);
        assert(enc_args_inner(seq![x]) == enc_str(x));
        assert(args.push(x)[0] == args[0]);
        assert(enc_args_inner(args.push(x)) =~= enc_args_inner(args) + seq![','] + enc_str(x));
    } else {
        assert(args.push(x).drop_first() =~= args.drop_first().push(x));
        lemma_enc_args_inner_push(args.drop_first(), x);
        assert(enc_args_inner(args.push(x)) =~= enc_args_inner(args) + seq![','] + enc_str(x));
    }
}

/// Appends the JSON array of the argument strings.
fn append_json_args(out: &mut String, args: &Vec<String>)
    ensures
        final(out)@ == old(out)@ + enc_args(args.deep_view()),
{
    let ghost entry = out@;
    let ghost all = args.deep_view();
    push_char(out, '[');
    let n = args.len();
    let mut k: usize = 0;
    while k < n
        invariant
            n == args@.len(),
            all == args.deep_view(),
            k <= n,
            out@ == entry + seq!['['] + enc_args_inner(all.take(k as int)),
        decreases n - k,
    {
        if k > 0 {
            push_char(out, ',');
        }
        append_json_string(out, args[k].as_str());
        proof {
            assert(args@[k as int]@ == all[k as int]);
            assert(all.take(k as int + 1) =~= all.take(k as int).push(all[k as int]));
            if k > 0 {
                lemma_enc_args_inner_push(all.take(k as int), all[k as int]);
                assert(out@ =~= entry + seq!['['] + enc_args_inner(all.take(k as int + 1)));
            } else {
                assert(all.take(1) =~= seq![all[0]]);
                assert(enc_args_inner(all.take(1)) == enc_str(all[0]));
                assert(out@ =~= entry + seq!['['] + enc_args_inner(all.take(1)));
            }
        }
        k = k + 1;
    }
    push_char(out, ']');
    proof {
        assert(all.take(n as int) =~= all);
        assert(out@ =~= entry + enc_args(all));
    }
}

fn write_from_success(out: &mut String, j: &Job)
    ensures
        final(out)@ == old(out)@ + enc_job_from_success(*j),
{
    out.append(",\"success\":");
    append_json_obool(out, &j.success);
    out.append("}");
    proof {
        assert(out@ =~= old(out)@ + enc_job_from_success(*j));
    }
}

fn write_from_results(out: &mut String, j: &Job)
    ensures
        final(out)@ == old(out)@ + enc_job_from_results(*j),
{
    out.append(",\"results\":");
    append_json_opt(out, &j.result);
    write_from_success(out, j);
    proof {
        assert(out@ =~= old(out)@ + enc_job_from_results(*j));
    }
}

fn write_from_agent(out: &mut String, j: &Job)
    ensures
        final(out)@ == old(out)@ + enc_job_from_agent(*j),
{
    out.append("},\"agent_id\":");
    append_json_string(out, j.agent_id.as_str());
    write_from_results(out, j);
    proof {
        assert(out@ =~= old(out)@ + enc_job_from_agent(*j));
    }
}

fn write_from_variant(out: &mut String, j: &Job)
    ensures
        final(out)@ == old(out)@ + enc_job_from_variant(*j),
{
    out.append(",\"variant\":");
    append_json_string(out, j.action.variant.as_str());
    write_from_agent(out, j);
    proof {
        assert(out@ =~= old(out)@ + enc_job_from_variant(*j));
    }
}

fn write_from_args(out: &mut String, j: &Job)
    ensures
        final(out)@ == old(out)@ + enc_job_from_args(*j),
{
    out.append(",\"args\":");
    append_json_args(out, &j.action.args);
    write_from_variant(out, j);
    proof {
        assert(out@ =~= old(out)@ + enc_job_from_args(*j));
    }
}

fn write_from_action(out: &mut String, j: &Job)
    ensures
        final(out)@ == old(out)@ + enc_job_from_action(*j),
{
    out.append(",\"action\":{\"cmd\":");
    append_json_string(out, j.action.cmd.as_str());
    write_from_args(out, j);
    proof {
        assert(out@ =~= old(out)@ + enc_job_from_action(*j));
    }
}

fn write_from_completed(out: &mut String, j: &Job)
    ensures
        final(out)@ == old(out)@ + enc_job_from_completed(*j),
{
    out.append(",\"completed_at\":");
    append_json_opt(out, &j.completed_at);
    write_from_action(out, j);
    proof {
        assert(out@ =~= old(out)@ + enc_job_from_completed(*j));
    }
}

fn write_from_started(out: &mut String, j: &Job)
    ensures
        final(out)@ == old(out)@ + enc_job_from_started(*j),
{
    out.append(",\"started_at\":");
    append_json_opt(out, &j.started_at);
    write_from_completed(out, j);
    proof {
        assert(out@ =~= old(out)@ + enc_job_from_started(*j));
    }
}

fn write_from_created(out: &mut String, j: &Job)
    ensures
        final(out)@ == old(out)@ + enc_job_from_created(*j),
{
    out.append(",\"created_at\":");
    append_json_string(out, j.created_at.as_str());
    write_from_started(out, j);
    proof {
        assert(out@ =~= old(out)@ + enc_job_from_created(*j));
    }
}

fn write_from_description(out: &mut String, j: &Job)
    ensures
        final(out)@ == old(out)@ + enc_job_from_description(*j),
{
    out.append(",\"description\":");
    append_json_opt(out, &j.description);
    write_from_created(out, j);
    proof {
        assert(out@ =~= old(out)@ + enc_job_from_description(*j));
    }
}

fn write_from_name(out: &mut String, j: &Job)
    ensures
        final(out)@ == old(out)@ + enc_job_from_name(*j),
{
    out.append(",\"name\":");
    append_json_string(out, j.name.as_str());
    write_from_description(out, j);
    proof {
        assert(out@ =~= old(out)@ + enc_job_from_name(*j));
    }
}

/// Renders a job's canonical wire text.
pub fn write_job(j: &Job) -> (r: String)
    ensures
        r@ == enc_job(*j),
{
    let mut out = String::new();
    out.append("{\"id\":");
    append_json_string(&mut out, j.id.as_str());
    write_from_name(&mut out, j);
    proof {
        assert(out@ =~= enc_job(*j));
    }
    out
}

/// If the literal stands at `pos`, the position just past it.
fn at_lit(s: &str, pos: usize, lit: &str) -> (r: Option<usize>)
    requires
        pos <= s@.len(),
    ensures
        r matches Some(p) ==> pos <= p <= s@.len() && p == pos + lit@.len()
            && s@.subrange(pos as int, p as int) == lit@,
        forall|rest: Seq<char>|
            s@.skip(pos as int) == lit@ + rest ==> r == Some((pos + lit@.len()) as usize),
{
    let n = s.unicode_len();
    let m = lit.unicode_len();
    if m > n - pos {
        proof {
            assert forall|rest: Seq<char>| s@.skip(pos as int) != lit@ + rest by {
                assert(s@.skip(pos as int).len() == n - pos);
                assert((lit@ + rest).len() >= m);
            }
        }
        return None;
    }
    let mut j: usize = 0;
    while j < m
        invariant
            n == s@.len(),
            m == lit@.len(),
            pos + m <= n,
            j <= m,
            forall|k: int| 0 <= k < j ==> s@[pos + k] == lit@[k],
        decreases m - j,
    {
        if s.get_char(pos + j) != lit.get_char(j) {
            proof {
                assert forall|rest: Seq<char>| s@.skip(pos as int) != lit@ + rest by {
                    if s@.skip(pos as int) == lit@ + rest {
                        assert(s@.skip(pos as int)[j as int] == s@[pos + j]);
                        assert((lit@ + rest)[j as int] == lit@[j as int]);
                    }
                }
            }
            return None;
        }
        j = j + 1;
    }
    proof {
        assert(s@.subrange(pos as int, pos + m as int) =~= lit@);
    }
    Some(pos + m)
}

/// Whenever the text at `pos` opens a well-escaped string, reading it back
/// succeeds and recovers the decoded text.
spec fn string_read_back(
    s: Seq<char>,
    pos: int,
    r: Option<(String, usize)>,
) -> bool {
    forall|t: Seq<char>, rest: Seq<char>|
        s.skip(pos) == enc_str(t) + rest ==> (r matches Some(v) && v.0@ == t && v.1
            == s.len() - rest.len())
}

/// Reads a quoted, escaped string starting at `pos`; on success, the
/// decoded text and the position just past the closing quote. Exactly the
/// strings the encoder writes are read, and they are read back exactly.
fn parse_string(s: &str, pos: usize) -> (r: Option<(String, usize)>)
    requires
        pos <= s@.len(),
    ensures
        r matches Some(v) ==> pos < v.1 <= s@.len(),
        string_read_back(s@, pos as int, r),
{
    let n = s.unicode_len();
    if pos >= n || s.get_char(pos) != '"' {
        proof {
            assert forall|t: Seq<char>, rest: Seq<char>|
                s@.skip(pos as int) != enc_str(t) + rest by {
                if s@.skip(pos as int) == enc_str(t) + rest {
                    assert((enc_str(t) + rest)[0] == '"');
                    assert(s@.skip(pos as int)[0] == s@[pos as int]);
                }
            }
        }
        return None;
    }
    let ghost start = pos as int + 1;
    proof {
        assert(s@.skip(pos as int).drop_first() =~= s@.skip(start));
    }
    let mut out = String::new();
    let mut i: usize = pos + 1;
    while i < n
        invariant
            n == s@.len(),
            pos < i <= n,
            start == pos as int + 1,
            s@[pos as int] == '"',
            dec_body(s@.skip(i as int)) matches Some(p) ==> dec_body(s@.skip(start)) == Some(
                (out@ + p.0, p.1),
            ),
            dec_body(s@.skip(i as int)) is None ==> dec_body(s@.skip(start)) is None,
        decreases n - i,
    {
        let c = s.get_char(i);
        proof {
            assert(s@.skip(i as int)[0] == s@[i as int]);
        }
        if c == '"' {
            proof {
                assert(s@.skip(i as int).drop_first() =~= s@.skip(i as int + 1));
                assert(dec_body(s@.skip(i as int)) == Some(
                    (Seq::<char>::empty(), s@.skip(i as int + 1)),
                ));
                assert(out@ + Seq::<char>::empty() =~= out@);
                assert(dec_body(s@.skip(start)) == Some((out@, s@.skip(i as int + 1))));
                assert forall|t: Seq<char>, rest: Seq<char>|
                    s@.skip(pos as int) == enc_str(t) + rest implies (out@ == t && i + 1 == s@.len()
                    - rest.len()) by {
                    assert(s@.skip(pos as int).drop_first() =~= esc(t) + (seq!['"'] + rest));
                    assert(s@.skip(pos as int).drop_first() =~= s@.skip(start));
                    lemma_dec_body_of_esc(t, rest);
                    assert(dec_body(s@.skip(start)) == Some((t, rest)));
                    assert(rest.len() == s@.skip(i as int + 1).len());
                }
            }
            return Some((out, i + 1));
        } else if c == '\\' {
            if i + 1 >= n {
                proof {
                    assert(s@.skip(i as int).len() < 2);
                    assert(dec_body(s@.skip(i as int)) is None);
                    lemma_no_string_here(s@, pos as int, start, i as int);
                }
                return None;
            }
            let e = s.get_char(i + 1);
            proof {
                assert(s@.skip(i as int)[1] == s@[i as int + 1]);
                assert(s@.skip(i as int).skip(2) =~= s@.skip(i as int + 2));
            }
            let ghost out_before = out@;
            if e == '"' {
                push_char(&mut out, '"');
            } else if e == '\\' {
                push_char(&mut out, '\\');
            } else if e == 'n' {
                push_char(&mut out, '\n');
            } else if e == 'r' {
                push_char(&mut out, '\r');
            } else if e == 't' {
                push_char(&mut out, '\t');
            } else {
                proof {
                    assert(unesc(s@[i as int + 1]) is None);
                    assert(dec_body(s@.skip(i as int)) is None);
                    lemma_no_string_here(s@, pos as int, start, i as int);
                }
                return None;
            }
            proof {
                let c2 = unesc(s@[i as int + 1]).unwrap();
                assert(out@ == out_before + seq![c2]);
                if let Some(p) = dec_body(s@.skip(i as int + 2)) {
                    assert(dec_body(s@.skip(i as int)) == Some((seq![c2] + p.0, p.1)));
                    assert(out_before + (seq![c2] + p.0) =~= out@ + p.0);
                } else {
                    assert(dec_body(s@.skip(i as int)) is None);
                }
            }
            i = i + 2;
        } else {
            let ghost out_before = out@;
            push_char(&mut out, c);
            proof {
                assert(s@.skip(i as int).drop_first() =~= s@.skip(i as int + 1));
                if let Some(p) = dec_body(s@.skip(i as int + 1)) {
                    assert(dec_body(s@.skip(i as int)) == Some((seq![c] + p.0, p.1)));
                    assert(out_before + (seq![c] + p.0) =~= out@ + p.0);
                } else {
                    assert(dec_body(s@.skip(i as int)) is None);
                }
            }
            i = i + 1;
        }
    }
    proof {
        assert(s@.skip(i as int).len() == 0);
        assert(dec_body(s@.skip(i as int)) is None);
        lemma_no_string_here(s@, pos as int, start, i as int);
    }
    None
}

/// When the body scan has run aground, no well-escaped string can open at
/// `pos`: any claimed decomposition contradicts the failed scan.
proof fn lemma_no_string_here(s: Seq<char>, pos: int, start: int, i: int)
    requires
        0 <= pos < s.len(),
        start == pos + 1,
        s[pos] == '"',
        dec_body(s.skip(start)) is None,
    ensures
        forall|t: Seq<char>, rest: Seq<char>| s.skip(pos) != enc_str(t) + rest,
{
    assert forall|t: Seq<char>, rest: Seq<char>| s.skip(pos) != enc_str(t) + rest by {
        if s.skip(pos) == enc_str(t) + rest {
            assert(s.skip(pos).drop_first() =~= esc(t) + (seq!['"'] + rest));
            assert(s.skip(pos).drop_first() =~= s.skip(start));
            lemma_dec_body_of_esc(t, rest);
        }
    }
}

/// Reads a quoted string or the null literal. Exactly the encodings of
/// optional strings are read, and they are read back exactly.
fn parse_opt_string(s: &str, pos: usize) -> (r: Option<(Option<String>, usize)>)
    requires
        pos <= s@.len(),
    ensures
        r matches Some(v) ==> pos <= v.1 <= s@.len(),
        forall|rest: Seq<char>|
            s@.skip(pos as int) == lit_null() + rest ==> (r matches Some(v) && v.0 is None && v.1
                == s@.len() - rest.len()),
        forall|t: Seq<char>, rest: Seq<char>|
            s@.skip(pos as int) == enc_str(t) + rest ==> (r matches Some(v) && (v.0 matches Some(x)
                && x@ == t) && v.1 == s@.len() - rest.len()),
{
    proof {
        reveal_strlit("null");
        assert("null"@ =~= lit_null());
    }
    match at_lit(s, pos, "null") {
        Some(p) => {
            proof {
                assert(s@.subrange(pos as int, p as int)[0] == s@[pos as int]);
                assert(s@[pos as int] == 'n');
                assert forall|t: Seq<char>, rest: Seq<char>|
                    s@.skip(pos as int) != enc_str(t) + rest by {
                    if s@.skip(pos as int) == enc_str(t) + rest {
                        assert(s@.skip(pos as int)[0] == s@[pos as int]);
                        assert((enc_str(t) + rest)[0] == '"');
                    }
                }
                assert forall|rest: Seq<char>|
                    s@.skip(pos as int) == lit_null() + rest implies p == s@.len() - rest.len() by {
                    assert(s@.skip(pos as int).len() == s@.len() - pos);
                    assert(lit_null().len() == 4);
                    assert("null"@.len() == 4);
                    assert(p == pos + 4);
                }
            }
            Some((None, p))
        },
        None => {
            proof {
                assert forall|rest: Seq<char>| s@.skip(pos as int) != lit_null() + rest by {
                    if s@.skip(pos as int) == lit_null() + rest {
                        assert(lit_null() + rest =~= "null"@ + rest);
                    }
                }
            }
            match parse_string(s, pos) {
                Some((v, p)) => Some((Some(v), p)),
                None => None,
            }
        },
    }
}

/// Reads true, false, or the null literal. Exactly the encodings of
/// optional booleans are read, and they are read back exactly.
fn parse_obool(s: &str, pos: usize) -> (r: Option<(Option<bool>, usize)>)
    requires
        pos <= s@.len(),
    ensures
        r matches Some(v) ==> pos <= v.1 <= s@.len(),
        forall|o: Option<bool>, rest: Seq<char>|
            s@.skip(pos as int) == enc_obool(o) + rest ==> (r matches Some(v) && v.0 == o && v.1
                == s@.len() - rest.len()),
{
    proof {
        reveal_strlit("null");
        reveal_strlit("true");
        reveal_strlit("false");
        assert("null"@ =~= lit_null());
        assert("true"@ =~= lit_true());
        assert("false"@ =~= lit_false());
    }
    match at_lit(s, pos, "null") {
        Some(p) => {
            proof {
                assert(s@.subrange(pos as int, p as int)[0] == s@[pos as int]);
                lemma_obool_head(s@, pos as int, 'n');
                assert forall|o: Option<bool>, rest: Seq<char>|
                    s@.skip(pos as int) == enc_obool(o) + rest implies (o is None && p == s@.len()
                    - rest.len()) by {
                    assert(enc_obool(o)[0] == 'n');
                    assert(o is None);
                    assert(s@.skip(pos as int).len() == s@.len() - pos);
                    assert(lit_null().len() == 4);
                    assert("null"@.len() == 4);
                    assert(p == pos + 4);
                }
            }
            Some((None, p))
        },
        None => match at_lit(s, pos, "true") {
            Some(p) => {
                proof {
                    assert(s@.subrange(pos as int, p as int)[0] == s@[pos as int]);
                    lemma_obool_head(s@, pos as int, 't');
                    assert forall|o: Option<bool>, rest: Seq<char>|
                        s@.skip(pos as int) == enc_obool(o) + rest implies (o == Some(true) && p
                        == s@.len() - rest.len()) by {
                        assert(enc_obool(o)[0] == 't');
                        assert(o == Some(true));
                        assert(s@.skip(pos as int).len() == s@.len() - pos);
                        assert(lit_true().len() == 4);
                        assert("true"@.len() == 4);
                        assert(p == pos + 4);
                    }
                }
                Some((Some(true), p))
            },
            None => match at_lit(s, pos, "false") {
                Some(p) => {
                    proof {
                        assert(s@.subrange(pos as int, p as int)[0] == s@[pos as int]);
                        lemma_obool_head(s@, pos as int, 'f');
                        assert forall|o: Option<bool>, rest: Seq<char>|
                            s@.skip(pos as int) == enc_obool(o) + rest implies (o == Some(false)
                            && p == s@.len() - rest.len()) by {
                            assert(enc_obool(o)[0] == 'f');
                            assert(o == Some(false));
                            assert(s@.skip(pos as int).len() == s@.len() - pos);
                            assert(lit_false().len() == 5);
                            assert("false"@.len() == 5);
                            assert(p == pos + 5);
                        }
                    }
                    Some((Some(false), p))
                },
                None => {
                    proof {
                        assert forall|o: Option<bool>, rest: Seq<char>|
                            s@.skip(pos as int) != enc_obool(o) + rest by {
                            if s@.skip(pos as int) == enc_obool(o) + rest {
                                match o {
                                    Option::None => {
                                        assert(lit_null() + rest =~= "null"@ + rest);
                                    },
                                    Option::Some(true) => {
                                        assert(lit_true() + rest =~= "true"@ + rest);
                                    },
                                    Option::Some(false) => {
                                        assert(lit_false() + rest =~= "false"@ + rest);
                                    },
                                }
                            }
                        }
                    }
                    None
                },
            },
        },
    }
}

/// The first character of an encoded optional boolean tells its value
/// apart: n for null, t for true, f for false.
proof fn lemma_obool_head(s: Seq<char>, pos: int, h: char)
    requires
        0 <= pos < s.len(),
        s[pos] == h,
        h == 'n' || h == 't' || h == 'f',
    ensures
        forall|o: Option<bool>, rest: Seq<char>|
            s.skip(pos) == enc_obool(o) + rest ==> enc_obool(o)[0] == h,
{
    assert forall|o: Option<bool>, rest: Seq<char>|
        s.skip(pos) == enc_obool(o) + rest implies enc_obool(o)[0] == h by {
        assert(s.skip(pos)[0] == s[pos]);
        assert((enc_obool(o) + rest)[0] == enc_obool(o)[0]);
    }
}

/// Reads a JSON array of strings.
/// What follows the array items already read: either the closing bracket,
/// or a comma and the remaining items before it.
spec fn arr_tail(items: Seq<Seq<char>>, k: int, rest: Seq<char>) -> Seq<char> {
    if k >= items.len() {
        seq![']'] + rest
    } else {
        seq![','] + (enc_args_inner(items.skip(k)) + (seq![']'] + rest))
    }
}

/// Dropping an equal-length prefix of an equal concatenation.
proof fn lemma_skip_concat(s: Seq<char>, i: int, a: Seq<char>, b: Seq<char>)
    requires
        0 <= i <= s.len(),
        s.skip(i) == a + b,
    ensures
        s.skip(i + a.len()) == b,
{
    assert(s.skip(i).len() == s.len() - i);
    assert((a + b).len() == a.len() + b.len());
    assert(s.len() - i == a.len() + b.len());
    assert forall|q: int| 0 <= q < b.len() implies s.skip(i + a.len())[q] == b[q] by {
        assert(s.skip(i)[a.len() + q] == (a + b)[a.len() + q]);
        assert(s.skip(i)[a.len() + q] == s[i + a.len() + q]);
        assert(s.skip(i + a.len())[q] == s[i + a.len() + q]);
    }
    assert(s.skip(i + a.len()) =~= b);
}

/// Splitting the items still to read into the next one and what follows it.
proof fn lemma_arr_step(items: Seq<Seq<char>>, k: int, rest: Seq<char>)
    requires
        0 <= k < items.len(),
    ensures
        enc_args_inner(items.skip(k)) + (seq![']'] + rest) == enc_str(items[k]) + arr_tail(
            items,
            k + 1,
            rest,
        ),
    decreases items.len() - k,
{
    let m = items.skip(k);
    assert(m[0] == items[k]);
    if m.len() == 1 {
        assert(enc_args_inner(m) == enc_str(m[0]));
        assert(enc_str(m[0]) + (seq![']'] + rest) =~= enc_str(items[k]) + arr_tail(
            items,
            k + 1,
            rest,
        ));
    } else {
        assert(m.drop_first() =~= items.skip(k + 1));
        assert(enc_args_inner(m) == enc_str(m[0]) + (seq![','] + enc_args_inner(items.skip(k + 1))));
        assert((enc_str(m[0]) + (seq![','] + enc_args_inner(items.skip(k + 1)))) + (seq![']']
            + rest) =~= enc_str(items[k]) + arr_tail(items, k + 1, rest));
    }
}

/// Reads a JSON array of strings. Exactly the arrays the encoder writes
/// are read, and they are read back exactly.
fn parse_args(s: &str, pos: usize) -> (r: Option<(Vec<String>, usize)>)
    requires
        pos <= s@.len(),
    ensures
        r matches Some(v) ==> pos <= v.1 <= s@.len(),
        forall|items: Seq<Seq<char>>, rest: Seq<char>|
            s@.skip(pos as int) == enc_args(items) + rest ==> (r matches Some(v)
                && v.0.deep_view() == items && v.1 == s@.len() - rest.len()),
{
    let n = s.unicode_len();
    if pos >= n || s.get_char(pos) != '[' {
        proof {
            assert forall|items: Seq<Seq<char>>, rest: Seq<char>|
                s@.skip(pos as int) != enc_args(items) + rest by {
                if s@.skip(pos as int) == enc_args(items) + rest {
                    assert(s@.skip(pos as int).len() >= 2);
                    assert(pos < n);
                    assert(s@.skip(pos as int)[0] == s@[pos as int]);
                    assert((enc_args(items) + rest)[0] == '[');
                }
            }
        }
        return None;
    }
    let mut args: Vec<String> = Vec::new();
    let mut i: usize = pos + 1;
    if i < n && s.get_char(i) == ']' {
        proof {
            assert forall|items: Seq<Seq<char>>, rest: Seq<char>|
                s@.skip(pos as int) == enc_args(items) + rest implies (items =~= args.deep_view()
                && i + 1 == s@.len() - rest.len()) by {
                assert(enc_args(items) + rest =~= seq!['['] + (enc_args_inner(items) + (seq![']']
                    + rest)));
                lemma_skip_concat(
                    s@,
                    pos as int,
                    seq!['['],
                    enc_args_inner(items) + (seq![']'] + rest),
                );
                assert(s@.skip(pos as int + 1)[0] == s@[pos as int + 1]);
                if items.len() > 0 {
                    lemma_arr_step(items, 0, rest);
                    assert(items.skip(0) =~= items);
                    assert(s@.skip(pos as int + 1) == enc_str(items[0]) + arr_tail(items, 1, rest));
                    assert((enc_str(items[0]) + arr_tail(items, 1, rest))[0] == '"');
                    assert(false);
                }
                assert(items =~= args.deep_view());
                assert(s@.skip(pos as int + 1) =~= seq![']'] + rest);
            }
        }
        return Some((args, i + 1));
    }
    proof {
        assert forall|rest: Seq<char>|
            s@.skip(pos as int) != enc_args(Seq::<Seq<char>>::empty()) + rest by {
            if s@.skip(pos as int) == enc_args(Seq::<Seq<char>>::empty()) + rest {
                assert(enc_args(Seq::<Seq<char>>::empty()) + rest =~= seq!['['] + (seq![']']
                    + rest));
                assert(s@.skip(pos as int)[1] == s@[pos as int + 1]);
                assert((seq!['['] + (seq![']'] + rest))[1] == ']');
                assert(s@.skip(pos as int).len() >= 2);
            }
        }
        assert forall|items: Seq<Seq<char>>, rest: Seq<char>|
            s@.skip(pos as int) == enc_args(items) + rest && items.len() > 0 implies (
        args.deep_view() =~= items.take(0) && s@.skip(i as int) == enc_str(items[0]) + arr_tail(
            items,
            1,
            rest,
        )) by {
            assert(enc_args(items) + rest =~= seq!['['] + (enc_args_inner(items) + (seq![']']
                + rest)));
            lemma_skip_concat(s@, pos as int, seq!['['], enc_args_inner(items) + (seq![']'] + rest));
            lemma_arr_step(items, 0, rest);
            assert(items.skip(0) =~= items);
        }
    }
    loop
        invariant
            n == s@.len(),
            pos < i <= n,
            forall|rest: Seq<char>|
                s@.skip(pos as int) != enc_args(Seq::<Seq<char>>::empty()) + rest,
            forall|items: Seq<Seq<char>>, rest: Seq<char>|
                s@.skip(pos as int) == enc_args(items) + rest && items.len() > 0 ==> {
                    let k = args.deep_view().len() as int;
                    &&& k < items.len()
                    &&& args.deep_view() == items.take(k)
                    &&& s@.skip(i as int) == enc_str(items[k]) + arr_tail(items, k + 1, rest)
                },
        decreases n - i,
    {
        let ghost k0 = args.deep_view().len() as int;
        let (v, p) = match parse_string(s, i) {
            Some(v) => v,
            None => {
                proof {
                    assert forall|items: Seq<Seq<char>>, rest: Seq<char>|
                        s@.skip(pos as int) != enc_args(items) + rest by {
                        if s@.skip(pos as int) == enc_args(items) + rest {
                            if items.len() == 0 {
                                assert(items =~= Seq::<Seq<char>>::empty());
                            }
                        }
                    }
                }
                return None;
            },
        };
        let ghost dv0 = args.deep_view();
        args.push(v);
        proof {
            assert(args.deep_view() =~= dv0.push(v@));
        }
        if p >= n {
            proof {
                assert forall|items: Seq<Seq<char>>, rest: Seq<char>|
                    s@.skip(pos as int) != enc_args(items) + rest by {
                    if s@.skip(pos as int) == enc_args(items) + rest {
                        if items.len() == 0 {
                            assert(items =~= Seq::<Seq<char>>::empty());
                        } else {
                            assert(arr_tail(items, k0 + 1, rest).len() >= 1);
                        }
                    }
                }
            }
            return None;
        }
        let c = s.get_char(p);
        proof {
            assert forall|items: Seq<Seq<char>>, rest: Seq<char>|
                s@.skip(pos as int) == enc_args(items) + rest && items.len() > 0 implies (v@
                == items[k0] && s@.skip(p as int) == arr_tail(items, k0 + 1, rest) && s@[p as int]
                == arr_tail(items, k0 + 1, rest)[0]) by {
                lemma_skip_concat(
                    s@,
                    i as int,
                    enc_str(items[k0]),
                    arr_tail(items, k0 + 1, rest),
                );
                assert(s@.skip(p as int)[0] == s@[p as int]);
            }
        }
        if c == ']' {
            proof {
                assert forall|items: Seq<Seq<char>>, rest: Seq<char>|
                    s@.skip(pos as int) == enc_args(items) + rest implies (args.deep_view()
                    == items && p + 1 == s@.len() - rest.len()) by {
                    if items.len() == 0 {
                        assert(items =~= Seq::<Seq<char>>::empty());
                        assert(false);
                    } else {
                        if k0 + 1 < items.len() {
                            assert(arr_tail(items, k0 + 1, rest)[0] == ',');
                            assert(false);
                        }
                        assert(args.deep_view() =~= items.take(k0).push(items[k0]));
                        assert(items.take(k0).push(items[k0]) =~= items);
                        assert(arr_tail(items, k0 + 1, rest) == seq![']'] + rest);
                    }
                }
            }
            return Some((args, p + 1));
        }
        if c != ',' {
            proof {
                assert forall|items: Seq<Seq<char>>, rest: Seq<char>|
                    s@.skip(pos as int) != enc_args(items) + rest by {
                    if s@.skip(pos as int) == enc_args(items) + rest {
                        if items.len() == 0 {
                            assert(items =~= Seq::<Seq<char>>::empty());
                        } else {
                            assert(s@[p as int] == arr_tail(items, k0 + 1, rest)[0]);
                        }
                    }
                }
            }
            return None;
        }
        proof {
            assert forall|items: Seq<Seq<char>>, rest: Seq<char>|
                s@.skip(pos as int) == enc_args(items) + rest && items.len() > 0 implies {
                let k = args.deep_view().len() as int;
                &&& k < items.len()
                &&& args.deep_view() == items.take(k)
                &&& s@.skip(p as int + 1) == enc_str(items[k]) + arr_tail(items, k + 1, rest)
            } by {
                if k0 + 1 >= items.len() {
                    assert(arr_tail(items, k0 + 1, rest)[0] == ']');
                    assert(false);
                }
                assert(args.deep_view() =~= items.take(k0).push(items[k0]));
                assert(items.take(k0).push(items[k0]) =~= items.take(k0 + 1));
                assert(arr_tail(items, k0 + 1, rest) == seq![','] + (enc_args_inner(
                    items.skip(k0 + 1),
                ) + (seq![']'] + rest)));
                lemma_skip_concat(
                    s@,
                    p as int,
                    seq![','],
                    enc_args_inner(items.skip(k0 + 1)) + (seq![']'] + rest),
                );
                lemma_arr_step(items, k0 + 1, rest);
            }
        }
        i = p + 1;
    }
}

/// Reads the identity and creation fields of the canonical wire text:
/// everything up to the start timestamp.
#[verifier::rlimit(60)]
fn parse_head(s: &str) -> (r: Option<(String, String, Option<String>, String, usize)>)
    ensures
        r matches Some(v) ==> v.4 <= s@.len(),
        forall|j: Job|
            s@ == enc_job(j) ==> (r matches Some(v) && v.0@ == j.id@ && v.1@ == j.name@
                && opt_view(v.2) == opt_view(j.description) && v.3@ == j.created_at@ && s@.skip(
                v.4 as int,
            ) == enc_job_from_started(j)),
{
    proof {
        assert forall|j: Job| s@ == enc_job(j) implies s@.skip(0) == "{\"id\":"@ + (enc_str(
            j.id@,
        ) + enc_job_from_name(j)) by {
            assert(s@.skip(0) =~= s@);
        }
    }
    let pos = match at_lit(s, 0, "{\"id\":") {
        Some(p) => {
            proof {
                assert forall|j: Job| s@ == enc_job(j) implies s@.skip(p as int) == enc_str(j.id@) + enc_job_from_name(j) by {
                    assert(s@.skip(0 as int) == "{\"id\":"@ + (enc_str(j.id@) + enc_job_from_name(j)));
                    lemma_chain_step(s@, 0 as int, "{\"id\":"@, enc_str(j.id@) + enc_job_from_name(j), p as int);
                }
            }
            p
        },
        None => {
            return None;
        },
    };
    let (id, pos) = match parse_string(s, pos) {
        Some(v) => {
            proof {
                assert forall|j: Job| s@ == enc_job(j) implies (v.0@ == j.id@ && s@.skip(v.1 as int)
                    == enc_job_from_name(j)) by {
                    lemma_chain_step(s@, pos as int, enc_str(j.id@), enc_job_from_name(j), v.1 as int);
                }
            }
            v
        },
        None => {
            return None;
        },
    };
    let pos = match at_lit(s, pos, ",\"name\":") {
        Some(p) => {
            proof {
                assert forall|j: Job| s@ == enc_job(j) implies s@.skip(p as int) == enc_str(j.name@) + enc_job_from_description(j) by {
                    assert(s@.skip(pos as int) == ",\"name\":"@ + (enc_str(j.name@) + enc_job_from_description(j)));
                    lemma_chain_step(s@, pos as int, ",\"name\":"@, enc_str(j.name@) + enc_job_from_description(j), p as int);
                }
            }
            p
        },
        None => {
            return None;
        },
    };
    let (name, pos) = match parse_string(s, pos) {
        Some(v) => {
            proof {
                assert forall|j: Job| s@ == enc_job(j) implies (v.0@ == j.name@ && s@.skip(v.1 as int)
                    == enc_job_from_description(j)) by {
                    lemma_chain_step(s@, pos as int, enc_str(j.name@), enc_job_from_description(j), v.1 as int);
                }
            }
            v
        },
        None => {
            return None;
        },
    };
    let pos = match at_lit(s, pos, ",\"description\":") {
        Some(p) => {
            proof {
                assert forall|j: Job| s@ == enc_job(j) implies s@.skip(p as int) == enc_opt(j.description) + enc_job_from_created(j) by {
                    assert(s@.skip(pos as int) == ",\"description\":"@ + (enc_opt(j.description) + enc_job_from_created(j)));
                    lemma_chain_step(s@, pos as int, ",\"description\":"@, enc_opt(j.description) + enc_job_from_created(j), p as int);
                }
            }
            p
        },
        None => {
            return None;
        },
    };
    let (description, pos) = match parse_opt_string(s, pos) {
        Some(v) => {
            proof {
                assert forall|j: Job| s@ == enc_job(j) implies (opt_view(v.0) == opt_view(j.description) && s@.skip(v.1 as int)
                    == enc_job_from_created(j)) by {
                    if j.description is Some {
                        assert(enc_opt(j.description) == enc_str(j.description.unwrap()@));
                        assert(s@.skip(pos as int) == enc_str(j.description.unwrap()@) + (enc_job_from_created(j)));
                    } else {
                        assert(enc_opt(j.description) == lit_null());
                        assert(s@.skip(pos as int) == lit_null() + (enc_job_from_created(j)));
                    }
                    lemma_chain_step(s@, pos as int, enc_opt(j.description), enc_job_from_created(j), v.1 as int);
                }
            }
            v
        },
        None => {
            return None;
        },
    };
    let pos = match at_lit(s, pos, ",\"created_at\":") {
        Some(p) => {
            proof {
                assert forall|j: Job| s@ == enc_job(j) implies s@.skip(p as int) == enc_str(j.created_at@) + enc_job_from_started(j) by {
                    assert(s@.skip(pos as int) == ",\"created_at\":"@ + (enc_str(j.created_at@) + enc_job_from_started(j)));
                    lemma_chain_step(s@, pos as int, ",\"created_at\":"@, enc_str(j.created_at@) + enc_job_from_started(j), p as int);
                }
            }
            p
        },
        None => {
            return None;
        },
    };
    let (created_at, pos) = match parse_string(s, pos) {
        Some(v) => {
            proof {
                assert forall|j: Job| s@ == enc_job(j) implies (v.0@ == j.created_at@ && s@.skip(v.1 as int)
                    == enc_job_from_started(j)) by {
                    lemma_chain_step(s@, pos as int, enc_str(j.created_at@), enc_job_from_started(j), v.1 as int);
                }
            }
            v
        },
        None => {
            return None;
        },
    };
    Some((id, name, description, created_at, pos))
}

/// Reads the execution fields of the canonical wire text: the two
/// timestamps and the whole action object.
#[verifier::rlimit(60)]
fn parse_mid(s: &str, pos: usize) -> (r: Option<
    (Option<String>, Option<String>, String, Vec<String>, String, usize),
>)
    requires
        pos <= s@.len(),
    ensures
        r matches Some(v) ==> v.5 <= s@.len(),
        forall|j: Job|
            s@.skip(pos as int) == enc_job_from_started(j) ==> (r matches Some(v) && opt_view(v.0)
                == opt_view(j.started_at) && opt_view(v.1) == opt_view(j.completed_at) && v.2@
                == j.action.cmd@ && v.3.deep_view() == j.action.args.deep_view() && v.4@
                == j.action.variant@ && s@.skip(v.5 as int) == enc_job_from_agent(j)),
{
    let ghost p0 = pos as int;
    let pos = match at_lit(s, pos, ",\"started_at\":") {
        Some(p) => {
            proof {
                assert forall|j: Job| s@.skip(p0) == enc_job_from_started(j) implies s@.skip(p as int) == enc_opt(j.started_at) + enc_job_from_completed(j) by {
                    assert(s@.skip(pos as int) == ",\"started_at\":"@ + (enc_opt(j.started_at) + enc_job_from_completed(j)));
                    lemma_chain_step(s@, pos as int, ",\"started_at\":"@, enc_opt(j.started_at) + enc_job_from_completed(j), p as int);
                }
            }
            p
        },
        None => {
            return None;
        },
    };
    let (started_at, pos) = match parse_opt_string(s, pos) {
        Some(v) => {
            proof {
                assert forall|j: Job| s@.skip(p0) == enc_job_from_started(j) implies (opt_view(v.0) == opt_view(j.started_at) && s@.skip(v.1 as int)
                    == enc_job_from_completed(j)) by {
                    if j.started_at is Some {
                        assert(enc_opt(j.started_at) == enc_str(j.started_at.unwrap()@));
                        assert(s@.skip(pos as int) == enc_str(j.started_at.unwrap()@) + (enc_job_from_completed(j)));
                    } else {
                        assert(enc_opt(j.started_at) == lit_null());
                        assert(s@.skip(pos as int) == lit_null() + (enc_job_from_completed(j)));
                    }
                    lemma_chain_step(s@, pos as int, enc_opt(j.started_at), enc_job_from_completed(j), v.1 as int);
                }
            }
            v
        },
        None => {
            return None;
        },
    };
    let pos = match at_lit(s, pos, ",\"completed_at\":") {
        Some(p) => {
            proof {
                assert forall|j: Job| s@.skip(p0) == enc_job_from_started(j) implies s@.skip(p as int) == enc_opt(j.completed_at) + enc_job_from_action(j) by {
                    assert(s@.skip(pos as int) == ",\"completed_at\":"@ + (enc_opt(j.completed_at) + enc_job_from_action(j)));
                    lemma_chain_step(s@, pos as int, ",\"completed_at\":"@, enc_opt(j.completed_at) + enc_job_from_action(j), p as int);
                }
            }
            p
        },
        None => {
            return None;
        },
    };
    let (completed_at, pos) = match parse_opt_string(s, pos) {
        Some(v) => {
            proof {
                assert forall|j: Job| s@.skip(p0) == enc_job_from_started(j) implies (opt_view(v.0) == opt_view(j.completed_at) && s@.skip(v.1 as int)
                    == enc_job_from_action(j)) by {
                    if j.completed_at is Some {
                        assert(enc_opt(j.completed_at) == enc_str(j.completed_at.unwrap()@));
                        assert(s@.skip(pos as int) == enc_str(j.completed_at.unwrap()@) + (enc_job_from_action(j)));
                    } else {
                        assert(enc_opt(j.completed_at) == lit_null());
                        assert(s@.skip(pos as int) == lit_null() + (enc_job_from_action(j)));
                    }
                    lemma_chain_step(s@, pos as int, enc_opt(j.completed_at), enc_job_from_action(j), v.1 as int);
                }
            }
            v
        },
        None => {
            return None;
        },
    };
    let pos = match at_lit(s, pos, ",\"action\":{\"cmd\":") {
        Some(p) => {
            proof {
                assert forall|j: Job| s@.skip(p0) == enc_job_from_started(j) implies s@.skip(p as int) == enc_str(j.action.cmd@) + enc_job_from_args(j) by {
                    assert(s@.skip(pos as int) == ",\"action\":{\"cmd\":"@ + (enc_str(j.action.cmd@) + enc_job_from_args(j)));
                    lemma_chain_step(s@, pos as int, ",\"action\":{\"cmd\":"@, enc_str(j.action.cmd@) + enc_job_from_args(j), p as int);
                }
            }
            p
        },
        None => {
            return None;
        },
    };
    let (cmd, pos) = match parse_string(s, pos) {
        Some(v) => {
            proof {
                assert forall|j: Job| s@.skip(p0) == enc_job_from_started(j) implies (v.0@ == j.action.cmd@ && s@.skip(v.1 as int)
                    == enc_job_from_args(j)) by {
                    lemma_chain_step(s@, pos as int, enc_str(j.action.cmd@), enc_job_from_args(j), v.1 as int);
                }
            }
            v
        },
        None => {
            return None;
        },
    };
    let pos = match at_lit(s, pos, ",\"args\":") {
        Some(p) => {
            proof {
                assert forall|j: Job| s@.skip(p0) == enc_job_from_started(j) implies s@.skip(p as int) == enc_args(j.action.args.deep_view()) + enc_job_from_variant(j) by {
                    assert(s@.skip(pos as int) == ",\"args\":"@ + (enc_args(j.action.args.deep_view()) + enc_job_from_variant(j)));
                    lemma_chain_step(s@, pos as int, ",\"args\":"@, enc_args(j.action.args.deep_view()) + enc_job_from_variant(j), p as int);
                }
            }
            p
        },
        None => {
            return None;
        },
    };
    let (args, pos) = match parse_args(s, pos) {
        Some(v) => {
            proof {
                assert forall|j: Job| s@.skip(p0) == enc_job_from_started(j) implies (v.0.deep_view() == j.action.args.deep_view() && s@.skip(v.1 as int)
                    == enc_job_from_variant(j)) by {
                    lemma_chain_step(s@, pos as int, enc_args(j.action.args.deep_view()), enc_job_from_variant(j), v.1 as int);
                }
            }
            v
        },
        None => {
            return None;
        },
    };
    let pos = match at_lit(s, pos, ",\"variant\":") {
        Some(p) => {
            proof {
                assert forall|j: Job| s@.skip(p0) == enc_job_from_started(j) implies s@.skip(p as int) == enc_str(j.action.variant@) + enc_job_from_agent(j) by {
                    assert(s@.skip(pos as int) == ",\"variant\":"@ + (enc_str(j.action.variant@) + enc_job_from_agent(j)));
                    lemma_chain_step(s@, pos as int, ",\"variant\":"@, enc_str(j.action.variant@) + enc_job_from_agent(j), p as int);
                }
            }
            p
        },
        None => {
            return None;
        },
    };
    let (variant, pos) = match parse_string(s, pos) {
        Some(v) => {
            proof {
                assert forall|j: Job| s@.skip(p0) == enc_job_from_started(j) implies (v.0@ == j.action.variant@ && s@.skip(v.1 as int)
                    == enc_job_from_agent(j)) by {
                    lemma_chain_step(s@, pos as int, enc_str(j.action.variant@), enc_job_from_agent(j), v.1 as int);
                }
            }
            v
        },
        None => {
            return None;
        },
    };
    Some((started_at, completed_at, cmd, args, variant, pos))
}

/// Reads the reporting fields of the canonical wire text: the agent id,
/// the recorded result and the success flag, up to the closing brace.
#[verifier::rlimit(60)]
fn parse_tail(s: &str, pos: usize) -> (r: Option<(String, Option<String>, Option<bool>, usize)>)
    requires
        pos <= s@.len(),
    ensures
        r matches Some(v) ==> v.3 <= s@.len(),
        forall|j: Job|
            s@.skip(pos as int) == enc_job_from_agent(j) ==> (r matches Some(v) && v.0@
                == j.agent_id@ && opt_view(v.1) == opt_view(j.result) && v.2 == j.success && v.3
                == s@.len()),
{
    let ghost p0 = pos as int;
    let pos = match at_lit(s, pos, "},\"agent_id\":") {
        Some(p) => {
            proof {
                assert forall|j: Job| s@.skip(p0) == enc_job_from_agent(j) implies s@.skip(
                    p as int,
                ) == enc_str(j.agent_id@) + enc_job_from_results(j) by {
                    assert(s@.skip(pos as int) == "},\"agent_id\":"@ + (enc_str(j.agent_id@)
                        + enc_job_from_results(j)));
                    lemma_chain_step(
                        s@,
                        pos as int,
                        "},\"agent_id\":"@,
                        enc_str(j.agent_id@) + enc_job_from_results(j),
                        p as int,
                    );
                }
            }
            p
        },
        None => {
            return None;
        },
    };
    let (agent_id, pos) = match parse_string(s, pos) {
        Some(v) => {
            proof {
                assert forall|j: Job| s@.skip(p0) == enc_job_from_agent(j) implies (v.0@
                    == j.agent_id@ && s@.skip(v.1 as int) == enc_job_from_results(j)) by {
                    lemma_chain_step(
                        s@,
                        pos as int,
                        enc_str(j.agent_id@),
                        enc_job_from_results(j),
                        v.1 as int,
                    );
                }
            }
            v
        },
        None => {
            return None;
        },
    };
    let pos = match at_lit(s, pos, ",\"results\":") {
        Some(p) => {
            proof {
                assert forall|j: Job| s@.skip(p0) == enc_job_from_agent(j) implies s@.skip(p as int) == enc_opt(j.result) + enc_job_from_success(j) by {
                    assert(s@.skip(pos as int) == ",\"results\":"@ + (enc_opt(j.result) + enc_job_from_success(j)));
                    lemma_chain_step(s@, pos as int, ",\"results\":"@, enc_opt(j.result) + enc_job_from_success(j), p as int);
                }
            }
            p
        },
        None => {
            return None;
        },
    };
    let (result, pos) = match parse_opt_string(s, pos) {
        Some(v) => {
            proof {
                assert forall|j: Job| s@.skip(p0) == enc_job_from_agent(j) implies (opt_view(v.0) == opt_view(j.result) && s@.skip(v.1 as int)
                    == enc_job_from_success(j)) by {
                    if j.result is Some {
                        assert(enc_opt(j.result) == enc_str(j.result.unwrap()@));
                        assert(s@.skip(pos as int) == enc_str(j.result.unwrap()@) + (enc_job_from_success(j)));
                    } else {
                        assert(enc_opt(j.result) == lit_null());
                        assert(s@.skip(pos as int) == lit_null() + (enc_job_from_success(j)));
                    }
                    lemma_chain_step(s@, pos as int, enc_opt(j.result), enc_job_from_success(j), v.1 as int);
                }
            }
            v
        },
        None => {
            return None;
        },
    };
    let pos = match at_lit(s, pos, ",\"success\":") {
        Some(p) => {
            proof {
                assert forall|j: Job| s@.skip(p0) == enc_job_from_agent(j) implies s@.skip(p as int) == enc_obool(j.success) + "}"@ by {
                    assert(s@.skip(pos as int) == ",\"success\":"@ + (enc_obool(j.success) + "}"@));
                    lemma_chain_step(s@, pos as int, ",\"success\":"@, enc_obool(j.success) + "}"@, p as int);
                }
            }
            p
        },
        None => {
            return None;
        },
    };
    let (success, pos) = match parse_obool(s, pos) {
        Some(v) => {
            proof {
                assert forall|j: Job| s@.skip(p0) == enc_job_from_agent(j) implies (v.0 == j.success && s@.skip(v.1 as int)
                    == "}"@) by {
                    lemma_chain_step(s@, pos as int, enc_obool(j.success), "}"@, v.1 as int);
                }
            }
            v
        },
        None => {
            return None;
        },
    };
    let pos = match at_lit(s, pos, "}") {
        Some(p) => {
            proof {
                assert forall|j: Job| s@.skip(p0) == enc_job_from_agent(j) implies p
                    == s@.len() by {
                    assert(s@.skip(pos as int) == "}"@ + Seq::<char>::empty());
                    lemma_chain_step(s@, pos as int, "}"@, Seq::<char>::empty(), p as int);
                    assert(s@.skip(p as int).len() == 0);
                }
            }
            p
        },
        None => {
            proof {
                assert forall|j: Job| s@.skip(p0) != enc_job_from_agent(j) by {
                    if s@.skip(p0) == enc_job_from_agent(j) {
                        assert(s@.skip(pos as int) == "}"@ + Seq::<char>::empty());
                    }
                }
            }
            return None;
        },
    };
    Some((agent_id, result, success, pos))
}

/// Reads a job back from its canonical wire text. Exactly the canonical
/// form is accepted, and it is read back exactly: a successful decode
/// re-renders to the given text, and the text any job renders to decodes.
pub fn parse_job(s: &str) -> (r: Option<Job>)
    ensures
        r matches Some(j) ==> enc_job(j) == s@,
        forall|j: Job| s@ == enc_job(j) ==> r is Some,
{
    let (id, name, description, created_at, pos) = match parse_head(s) {
        Some(v) => v,
        None => {
            return None;
        },
    };
    let (started_at, completed_at, cmd, args, variant, pos) = match parse_mid(s, pos) {
        Some(v) => v,
        None => {
            return None;
        },
    };
    let (agent_id, result, success, _pos) = match parse_tail(s, pos) {
        Some(v) => v,
        None => {
            return None;
        },
    };
    let job = Job {
        id,
        name,
        description,
        created_at,
        started_at,
        completed_at,
        action: crate::action::Action { cmd, args, variant },
        agent_id,
        result,
        submitted: false,
        success,
    };
    proof {
        assert forall|j: Job| s@ == enc_job(j) implies enc_job(job) == s@ by {
            lemma_enc_job_congruence(job, j);
        }
    }
    let round = write_job(&job);
    if str_eq(round.as_str(), s) {
        Some(job)
    } else {
        None
    }
}

/// One link of the canonical text's decomposition: what was just consumed
/// stood at the cursor, so the remainder starts where the cursor now is.
proof fn lemma_chain_step(s: Seq<char>, p0: int, a: Seq<char>, b: Seq<char>, p1: int)
    requires
        0 <= p0 <= s.len(),
        s.skip(p0) == a + b,
        p1 == p0 + a.len() || p1 == s.len() - b.len(),
    ensures
        s.skip(p1) == b,
        p1 == p0 + a.len(),
        p1 == s.len() - b.len(),
        0 <= p1 <= s.len(),
{
    assert(s.skip(p0).len() == s.len() - p0);
    assert((a + b).len() == a.len() + b.len());
    lemma_skip_concat(s, p0, a, b);
}

/// Optional strings with the same text render to the same encoding.
proof fn lemma_enc_opt_congruence(x: Option<String>, y: Option<String>)
    requires
        opt_view(x) == opt_view(y),
    ensures
        enc_opt(x) == enc_opt(y),
{
    match (x, y) {
        (Option::Some(a), Option::Some(b)) => {
            assert(a@ == b@);
        },
        _ => {},
    }
}

/// Jobs that agree on every encoded field render to the same wire text.
proof fn lemma_enc_job_congruence(a: Job, b: Job)
    requires
        a.id@ == b.id@,
        a.name@ == b.name@,
        opt_view(a.description) == opt_view(b.description),
        a.created_at@ == b.created_at@,
        opt_view(a.started_at) == opt_view(b.started_at),
        opt_view(a.completed_at) == opt_view(b.completed_at),
        a.action.cmd@ == b.action.cmd@,
        a.action.args.deep_view() == b.action.args.deep_view(),
        a.action.variant@ == b.action.variant@,
        a.agent_id@ == b.agent_id@,
        opt_view(a.result) == opt_view(b.result),
        a.success == b.success,
    ensures
        enc_job(a) == enc_job(b),
{
    lemma_enc_opt_congruence(a.description, b.description);
    lemma_enc_opt_congruence(a.started_at, b.started_at);
    lemma_enc_opt_congruence(a.completed_at, b.completed_at);
    lemma_enc_opt_congruence(a.result, b.result);
    assert(enc_job_from_success(a) == enc_job_from_success(b));
    assert(enc_job_from_results(a) == enc_job_from_results(b));
    assert(enc_job_from_agent(a) == enc_job_from_agent(b));
    assert(enc_job_from_variant(a) == enc_job_from_variant(b));
    assert(enc_job_from_args(a) == enc_job_from_args(b));
    assert(enc_job_from_action(a) == enc_job_from_action(b));
    assert(enc_job_from_completed(a) == enc_job_from_completed(b));
    assert(enc_job_from_started(a) == enc_job_from_started(b));
    assert(enc_job_from_created(a) == enc_job_from_created(b));
    assert(enc_job_from_description(a) == enc_job_from_description(b));
    assert(enc_job_from_name(a) == enc_job_from_name(b));
}


// What follows proves that the encoding loses nothing: the wire text of a
// job determines every encoded field. Together with `parse_job`'s
// postcondition this says a successful decode returns the job that was
// written, field for field.

/// The character an escape's second character stands for.
spec fn unesc(e: char) -> Option<char> {
    if e == '"' {
        Some('"')
    } else if e == '\\' {
        Some('\\')
    } else if e == 'n' {
        Some('\n')
    } else if e == 'r' {
        Some('\r')
    } else if e == 't' {
        Some('\t')
    } else {
        None
    }
}

/// Reads an escaped string body up to its closing quote: the decoded text
/// and whatever follows the quote.
spec fn dec_body(s: Seq<char>) -> Option<(Seq<char>, Seq<char>)>
    decreases s.len(),
{
    if s.len() == 0 {
        None
    } else if s[0] == '"' {
        Some((Seq::<char>::empty(), s.drop_first()))
    } else if s[0] == '\\' {
        if s.len() < 2 {
            None
        } else {
            match unesc(s[1]) {
                Some(c) => match dec_body(s.skip(2)) {
                    Some(p) => Some((seq![c] + p.0, p.1)),
                    None => None,
                },
                None => None,
            }
        }
    } else {
        match dec_body(s.drop_first()) {
            Some(p) => Some((seq![s[0]] + p.0, p.1)),
            None => None,
        }
    }
}

/// Reading back an escaped body recovers the original text and leaves the
/// rest untouched.
proof fn lemma_dec_body_of_esc(t: Seq<char>, x: Seq<char>)
    ensures
        dec_body(esc(t) + (seq!['"'] + x)) == Some((t, x)),
    decreases t.len(),
{
    let s = esc(t) + (seq!['"'] + x);
    if t.len() == 0 {
        assert(esc(t) == Seq::<char>::empty());
        assert(s =~= seq!['"'] + x);
        assert(s[0] == '"');
        assert(s.drop_first() =~= x);
        assert(t =~= Seq::<char>::empty());
    } else {
        let c = t[0];
        let t2 = t.drop_first();
        assert(esc(t) == esc_char(c) + esc(t2));
        assert(seq![c] + t2 =~= t);
        if c == '"' || c == '\\' || c == '\n' || c == '\r' || c == '\t' {
            let e = esc_char(c)[1];
            assert(esc_char(c).len() == 2 && esc_char(c)[0] == '\\');
            assert(s[0] == '\\');
            assert(s[1] == e);
            assert(unesc(e) == Some(c));
            assert(s.skip(2) =~= esc(t2) + (seq!['"'] + x));
            lemma_dec_body_of_esc(t2, x);
        } else {
            assert(esc_char(c) =~= seq![c]);
            assert(s[0] == c);
            assert(c != '"' && c != '\\');
            assert(s.drop_first() =~= esc(t2) + (seq!['"'] + x));
            lemma_dec_body_of_esc(t2, x);
        }
    }
}

/// Dropping an equal prefix of two equal concatenations leaves equal tails.
proof fn lemma_peel(l: Seq<char>, x: Seq<char>, y: Seq<char>)
    requires
        l + x == l + y,
    ensures
        x == y,
{
    assert(x =~= (l + x).skip(l.len() as int));
    assert(y =~= (l + y).skip(l.len() as int));
}

/// A JSON string determines its text and whatever follows it.
proof fn lemma_enc_str_inj(a: Seq<char>, b: Seq<char>, x: Seq<char>, y: Seq<char>)
    requires
        enc_str(a) + x == enc_str(b) + y,
    ensures
        a == b,
        x == y,
{
    let s = enc_str(a) + x;
    assert(s.drop_first() =~= esc(a) + (seq!['"'] + x));
    lemma_dec_body_of_esc(a, x);
    assert((enc_str(b) + y).drop_first() =~= esc(b) + (seq!['"'] + y));
    lemma_dec_body_of_esc(b, y);
    assert(dec_body(s.drop_first()) == Some((a, x)));
    assert(dec_body(s.drop_first()) == Some((b, y)));
}

/// The text of an optional string.
pub open spec fn opt_view(o: Option<String>) -> Option<Seq<char>> {
    match o {
        Some(s) => Some(s@),
        None => None,
    }
}

/// An encoded optional string determines its text and whatever follows it.
proof fn lemma_enc_opt_inj(o1: Option<String>, o2: Option<String>, x: Seq<char>, y: Seq<char>)
    requires
        enc_opt(o1) + x == enc_opt(o2) + y,
    ensures
        opt_view(o1) == opt_view(o2),
        x == y,
{
    match (o1, o2) {
        (Option::None, Option::None) => {
            lemma_peel(lit_null(), x, y);
        },
        (Option::Some(s1), Option::Some(s2)) => {
            lemma_enc_str_inj(s1@, s2@, x, y);
        },
        (Option::None, Option::Some(s2)) => {
            assert((lit_null() + x)[0] == 'n');
            assert((enc_str(s2@) + y)[0] == '"');
            assert(false);
        },
        (Option::Some(s1), Option::None) => {
            assert((enc_str(s1@) + x)[0] == '"');
            assert((lit_null() + y)[0] == 'n');
            assert(false);
        },
    }
}

/// An encoded optional boolean determines its value and what follows it.
proof fn lemma_enc_obool_inj(o1: Option<bool>, o2: Option<bool>, x: Seq<char>, y: Seq<char>)
    requires
        enc_obool(o1) + x == enc_obool(o2) + y,
    ensures
        o1 == o2,
        x == y,
{
    assert((enc_obool(o1) + x)[0] == enc_obool(o1)[0]);
    assert((enc_obool(o2) + y)[0] == enc_obool(o2)[0]);
    if o1 == o2 {
        lemma_peel(enc_obool(o1), x, y);
    } else {
        assert(false);
    }
}

/// The items of an encoded argument array, read up to its closing bracket,
/// determine the item texts and whatever follows the bracket.
proof fn lemma_args_inner_inj(
    a1: Seq<Seq<char>>,
    a2: Seq<Seq<char>>,
    x: Seq<char>,
    y: Seq<char>,
)
    requires
        enc_args_inner(a1) + (seq![']'] + x) == enc_args_inner(a2) + (seq![']'] + y),
    ensures
        a1 == a2,
        x == y,
    decreases a1.len(),
{
    let lhs = enc_args_inner(a1) + (seq![']'] + x);
    let rhs = enc_args_inner(a2) + (seq![']'] + y);
    if a1.len() == 0 && a2.len() == 0 {
        assert(lhs =~= seq![']'] + x);
        assert(rhs =~= seq![']'] + y);
        lemma_peel(seq![']'], x, y);
        assert(a1 =~= a2);
    } else if a1.len() == 0 {
        assert(lhs[0] == ']');
        assert(enc_args_inner(a2)[0] == enc_str(a2[0])[0]);
        assert(rhs[0] == '"');
        assert(false);
    } else if a2.len() == 0 {
        assert(rhs[0] == ']');
        assert(enc_args_inner(a1)[0] == enc_str(a1[0])[0]);
        assert(lhs[0] == '"');
        assert(false);
    } else {
        let r1 = if a1.len() == 1 {
            seq![']'] + x
        } else {
            seq![','] + (enc_args_inner(a1.drop_first()) + (seq![']'] + x))
        };
        let r2 = if a2.len() == 1 {
            seq![']'] + y
        } else {
            seq![','] + (enc_args_inner(a2.drop_first()) + (seq![']'] + y))
        };
        assert(lhs =~= enc_str(a1[0]) + r1);
        assert(rhs =~= enc_str(a2[0]) + r2);
        lemma_enc_str_inj(a1[0], a2[0], r1, r2);
        if a1.len() == 1 && a2.len() == 1 {
            lemma_peel(seq![']'], x, y);
            assert(a1 =~= a2);
        } else if a1.len() == 1 {
            assert(r1[0] == ']');
            assert(r2[0] == ',');
            assert(false);
        } else if a2.len() == 1 {
            assert(r1[0] == ',');
            assert(r2[0] == ']');
            assert(false);
        } else {
            lemma_peel(
                seq![','],
                enc_args_inner(a1.drop_first()) + (seq![']'] + x),
                enc_args_inner(a2.drop_first()) + (seq![']'] + y),
            );
            lemma_args_inner_inj(a1.drop_first(), a2.drop_first(), x, y);
            assert(forall|i: int| 1 <= i < a1.len() ==> #[trigger] a1[i] == a1.drop_first()[i - 1]);
            assert(forall|i: int| 1 <= i < a2.len() ==> #[trigger] a2[i] == a2.drop_first()[i - 1]);
            assert(a1 =~= a2);
        }
    }
}

/// An encoded argument array determines its items and what follows it.
proof fn lemma_enc_args_inj(a1: Seq<Seq<char>>, a2: Seq<Seq<char>>, x: Seq<char>, y: Seq<char>)
    requires
        enc_args(a1) + x == enc_args(a2) + y,
    ensures
        a1 == a2,
        x == y,
{
    assert(enc_args(a1) + x =~= seq!['['] + (enc_args_inner(a1) + (seq![']'] + x)));
    assert(enc_args(a2) + y =~= seq!['['] + (enc_args_inner(a2) + (seq![']'] + y)));
    lemma_peel(
        seq!['['],
        enc_args_inner(a1) + (seq![']'] + x),
        enc_args_inner(a2) + (seq![']'] + y),
    );
    lemma_args_inner_inj(a1, a2, x, y);
}

/// The wire text is lossless: two jobs with the same canonical wire text
/// agree on every encoded field — the id, the name, the description, all
/// three timestamps, the whole action, the agent id, the recorded result
/// and the success flag. A decode of a written job therefore recovers each
/// of those fields exactly.
pub proof fn lemma_wire_text_lossless(j1: Job, j2: Job)
    requires
        enc_job(j1) == enc_job(j2),
    ensures
        j1.id@ == j2.id@,
        j1.name@ == j2.name@,
        opt_view(j1.description) == opt_view(j2.description),
        j1.created_at@ == j2.created_at@,
        opt_view(j1.started_at) == opt_view(j2.started_at),
        opt_view(j1.completed_at) == opt_view(j2.completed_at),
        j1.action.cmd@ == j2.action.cmd@,
        j1.action.args.deep_view() == j2.action.args.deep_view(),
        j1.action.variant@ == j2.action.variant@,
        j1.agent_id@ == j2.agent_id@,
        opt_view(j1.result) == opt_view(j2.result),
        j1.success == j2.success,
{
    lemma_peel("{\"id\":"@, enc_str(j1.id@) + enc_job_from_name(j1), enc_str(j2.id@) + enc_job_from_name(j2));
    lemma_enc_str_inj(j1.id@, j2.id@, enc_job_from_name(j1), enc_job_from_name(j2));
    lemma_peel(
        ",\"name\":"@,
        enc_str(j1.name@) + enc_job_from_description(j1),
        enc_str(j2.name@) + enc_job_from_description(j2),
    );
    lemma_enc_str_inj(j1.name@, j2.name@, enc_job_from_description(j1), enc_job_from_description(j2));
    lemma_peel(
        ",\"description\":"@,
        enc_opt(j1.description) + enc_job_from_created(j1),
        enc_opt(j2.description) + enc_job_from_created(j2),
    );
    lemma_enc_opt_inj(j1.description, j2.description, enc_job_from_created(j1), enc_job_from_created(j2));
    lemma_peel(
        ",\"created_at\":"@,
        enc_str(j1.created_at@) + enc_job_from_started(j1),
        enc_str(j2.created_at@) + enc_job_from_started(j2),
    );
    lemma_enc_str_inj(j1.created_at@, j2.created_at@, enc_job_from_started(j1), enc_job_from_started(j2));
    lemma_peel(
        ",\"started_at\":"@,
        enc_opt(j1.started_at) + enc_job_from_completed(j1),
        enc_opt(j2.started_at) + enc_job_from_completed(j2),
    );
    lemma_enc_opt_inj(j1.started_at, j2.started_at, enc_job_from_completed(j1), enc_job_from_completed(j2));
    lemma_peel(
        ",\"completed_at\":"@,
        enc_opt(j1.completed_at) + enc_job_from_action(j1),
        enc_opt(j2.completed_at) + enc_job_from_action(j2),
    );
    lemma_enc_opt_inj(j1.completed_at, j2.completed_at, enc_job_from_action(j1), enc_job_from_action(j2));
    lemma_peel(
        ",\"action\":{\"cmd\":"@,
        enc_str(j1.action.cmd@) + enc_job_from_args(j1),
        enc_str(j2.action.cmd@) + enc_job_from_args(j2),
    );
    lemma_enc_str_inj(j1.action.cmd@, j2.action.cmd@, enc_job_from_args(j1), enc_job_from_args(j2));
    lemma_peel(
        ",\"args\":"@,
        enc_args(j1.action.args.deep_view()) + enc_job_from_variant(j1),
        enc_args(j2.action.args.deep_view()) + enc_job_from_variant(j2),
    );
    lemma_enc_args_inj(
        j1.action.args.deep_view(),
        j2.action.args.deep_view(),
        enc_job_from_variant(j1),
        enc_job_from_variant(j2),
    );
    lemma_peel(
        ",\"variant\":"@,
        enc_str(j1.action.variant@) + enc_job_from_agent(j1),
        enc_str(j2.action.variant@) + enc_job_from_agent(j2),
    );
    lemma_enc_str_inj(
        j1.action.variant@,
        j2.action.variant@,
        enc_job_from_agent(j1),
        enc_job_from_agent(j2),
    );
    lemma_peel(
        "},\"agent_id\":"@,
        enc_str(j1.agent_id@) + enc_job_from_results(j1),
        enc_str(j2.agent_id@) + enc_job_from_results(j2),
    );
    lemma_enc_str_inj(j1.agent_id@, j2.agent_id@, enc_job_from_results(j1), enc_job_from_results(j2));
    lemma_peel(
        ",\"results\":"@,
        enc_opt(j1.result) + enc_job_from_success(j1),
        enc_opt(j2.result) + enc_job_from_success(j2),
    );
    lemma_enc_opt_inj(j1.result, j2.result, enc_job_from_success(j1), enc_job_from_success(j2));
    lemma_peel(
        ",\"success\":"@,
        enc_obool(j1.success) + "}"@,
        enc_obool(j2.success) + "}"@,
    );
    lemma_enc_obool_inj(j1.success, j2.success, "}"@, "}"@);
}

} // verus!
