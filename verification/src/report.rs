//! Rendering duplicate groups: one digest line, one indented quoted line per
//! path, then a blank line — the same text for stdout and the log.

use vstd::prelude::*;
use vstd::string::StrSliceExecFns;
use vstd::string::StringExecFns;
use crate::hex::push_char;

verus! {

/// How one character is written inside a quoted path: backslash escapes for
/// the quote, the backslash and the common control characters.
pub open spec fn escaped_char(c: char) -> Seq<char> {
    if c == '\\' {
        seq!['\\', '\\']
    } else if c == '"' {
        seq!['\\', '"']
    } else if c == '\n' {
        seq!['\\', 'n']
    } else if c == '\t' {
        seq!['\\', 't']
    } else if c == '\r' {
        seq!['\\', 'r']
    } else {
        seq![c]
    }
}

pub open spec fn escaped(s: Seq<char>) -> Seq<char>
    decreases s.len(),
{
    if s.len() == 0 {
        Seq::empty()
    } else {
        escaped_char(s[0]) + escaped(s.drop_first())
    }
}

/// A path as it stands in a report line: quoted, with escapes.
pub open spec fn quoted(s: Seq<char>) -> Seq<char> {
    seq!['"'] + escaped(s) + seq!['"']
}

/// The indented path lines of one group, in bucket order.
pub open spec fn path_lines(paths: Seq<Seq<char>>) -> Seq<char>
    decreases paths.len(),
{
    if paths.len() == 0 {
        Seq::empty()
    } else {
        seq!['\t'] + quoted(paths[0]) + seq!['\n'] + path_lines(paths.drop_first())
    }
}

/// The whole text of one group: the digest line, the path lines, and the
/// closing blank line.
pub open spec fn group_text(digest: Seq<char>, paths: Seq<Seq<char>>) -> Seq<char> {
    digest + seq!['\n'] + path_lines(paths) + seq!['\n']
}

pub proof fn lemma_escaped_push(s: Seq<char>, c: char)
    ensures
        escaped(s.push(c)) == escaped(s) + escaped_char(c),
    decreases s.len(),
{
    if s.len() == 0 {
        assert(s.push(c)[0] == c);
        assert(s.push(c).drop_first() =~= Seq::<char>::empty());
        assert(escaped(s.push(c).drop_first()) =~= Seq::<char>::empty());
        assert(escaped(s) =~= Seq::<char>::empty());
        assert(escaped(s.push(c)) =~= escaped(s) + escaped_char(c));
    } else {
        lemma_escaped_push(s.drop_first(), c);
        assert(s.push(c)[0] == s[0]);
        assert(s.push(c).drop_first() =~= s.drop_first().push(c));
        assert(escaped(s.push(c)) == escaped_char(s[0]) + (escaped(s.drop_first())
            + escaped_char(c)));
        assert(escaped_char(s[0]) + (escaped(s.drop_first()) + escaped_char(c)) =~= (escaped_char(
            s[0],
        ) + escaped(s.drop_first())) + escaped_char(c));
    }
}

pub proof fn lemma_path_lines_push(paths: Seq<Seq<char>>, p: Seq<char>)
    ensures
        path_lines(paths.push(p)) == path_lines(paths) + (seq!['\t'] + quoted(p) + seq!['\n']),
    decreases paths.len(),
{
    let line = seq!['\t'] + quoted(p) + seq!['\n'];
    if paths.len() == 0 {
        assert(paths.push(p)[0] == p);
        assert(paths.push(p).drop_first() =~= Seq::<Seq<char>>::empty());
        assert(path_lines(paths.push(p).drop_first()) =~= Seq::<char>::empty());
        assert(path_lines(paths) =~= Seq::<char>::empty());
        assert(path_lines(paths.push(p)) =~= path_lines(paths) + line);
    } else {
        lemma_path_lines_push(paths.drop_first(), p);
        assert(paths.push(p)[0] == paths[0]);
        assert(paths.push(p).drop_first() =~= paths.drop_first().push(p));
        let head = seq!['\t'] + quoted(paths[0]) + seq!['\n'];
        assert(path_lines(paths.push(p)) == head + (path_lines(paths.drop_first()) + line));
        assert(head + (path_lines(paths.drop_first()) + line) =~= (head + path_lines(
            paths.drop_first(),
        )) + line);
    }
}

fn escape_char_into(out: &mut String, c: char)
    ensures
        final(out)@ == old(out)@ + escaped_char(c),
{
    if c == '\\' {
        push_char(out, '\\');
        push_char(out, '\\');
    } else if c == '"' {
        push_char(out, '\\');
        push_char(out, '"');
    } else if c == '\n' {
        push_char(out, '\\');
        push_char(out, 'n');
    } else if c == '\t' {
        push_char(out, '\\');
        push_char(out, 't');
    } else if c == '\r' {
        push_char(out, '\\');
        push_char(out, 'r');
    } else {
        push_char(out, c);
    }
    proof {
        assert(out@ =~= old(out)@ + escaped_char(c));
    }
}

/// Write a path as a quoted, escaped report token.
#[verifier::loop_isolation(false)]
pub fn quote_path(path: &str) -> (r: String)
    ensures
        r@ == quoted(path@),
{
    let mut out = String::new();
    push_char(&mut out, '"');
    let n = path.unicode_len();
    let mut i: usize = 0;
    proof {
        assert(path@.take(0) =~= Seq::<char>::empty());
        assert(out@ =~= seq!['"'] + escaped(path@.take(0)));
    }
    while i < n
        invariant
            i <= n,
            out@ == seq!['"'] + escaped(path@.take(i as int)),
        decreases n - i,
    {
        let c = path.get_char(i);
        proof {
            assert(path@.take(i + 1) =~= path@.take(i as int).push(path@[i as int]));
            lemma_escaped_push(path@.take(i as int), path@[i as int]);
        }
        escape_char_into(&mut out, c);
        proof {
            assert(out@ =~= seq!['"'] + escaped(path@.take(i + 1)));
        }
        i += 1;
    }
    proof {
        assert(path@.take(n as int) =~= path@);
    }
    push_char(&mut out, '"');
    proof {
        assert(out@ =~= quoted(path@));
    }
    out
}

/// Render one duplicate group exactly as it is printed and logged.
#[verifier::loop_isolation(false)]
pub fn render_group(digest: &String, paths: &Vec<String>) -> (r: String)
    ensures
        r@ == group_text(digest@, paths.deep_view()),
{
    let ghost dv = paths.deep_view();
    let mut out = String::new();
    out.append(digest.as_str());
    push_char(&mut out, '\n');
    let n = paths.len();
    let mut i: usize = 0;
    proof {
        assert(dv.take(0) =~= Seq::<Seq<char>>::empty());
        assert(path_lines(dv.take(0)) =~= Seq::<char>::empty());
        assert(out@ =~= digest@ + seq!['\n'] + path_lines(dv.take(0)));
    }
    while i < n
        invariant
            i <= n,
            n == paths@.len(),
            out@ == digest@ + seq!['\n'] + path_lines(dv.take(i as int)),
        decreases n - i,
    {
        proof {
            assert(dv.take(i + 1) =~= dv.take(i as int).push(dv[i as int]));
            lemma_path_lines_push(dv.take(i as int), dv[i as int]);
        }
        push_char(&mut out, '\t');
        let q = quote_path(paths[i].as_str());
        out.append(q.as_str());
        push_char(&mut out, '\n');
        proof {
            assert(dv[i as int] == paths@[i as int]@);
            assert(out@ =~= digest@ + seq!['\n'] + path_lines(dv.take(i + 1)));
        }
        i += 1;
    }
    push_char(&mut out, '\n');
    proof {
        assert(dv.take(n as int) =~= dv);
        assert(out@ =~= group_text(digest@, dv));
    }
    out
}

} // verus!
