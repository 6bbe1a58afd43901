//! Scripts: chronological, name-resolved transcripts of a conversation,
//! one `NAME: text` line per message.

use vstd::prelude::*;
use vstd::string::*;

verus! {

/// Characters with the Unicode White_Space property.
pub open spec fn is_white_space(c: char) -> bool {
    let u = c as u32;
    ||| 0x09 <= u <= 0x0D
    ||| u == 0x20
    ||| u == 0x85
    ||| u == 0xA0
    ||| u == 0x1680
    ||| 0x2000 <= u <= 0x200A
    ||| u == 0x2028
    ||| u == 0x2029
    ||| u == 0x202F
    ||| u == 0x205F
    ||| u == 0x3000
}

/// `s` without its leading white space.
pub open spec fn trim_start_of(s: Seq<char>) -> Seq<char>
    decreases s.len(),
{
    if s.len() > 0 && is_white_space(s[0]) {
        trim_start_of(s.drop_first())
    } else {
        s
    }
}

/// `s` without its trailing white space.
pub open spec fn trim_end_of(s: Seq<char>) -> Seq<char>
    decreases s.len(),
{
    if s.len() > 0 && is_white_space(s.last()) {
        trim_end_of(s.drop_last())
    } else {
        s
    }
}

/// `s` without its leading and trailing white space.
pub open spec fn trim_of(s: Seq<char>) -> Seq<char> {
    trim_end_of(trim_start_of(s))
}

/// Relies on `str::trim`: it removes leading and trailing characters with
/// the Unicode White_Space property.
#[verifier::external_body]
fn trimmed(s: &str) -> (r: &str)
    ensures
        r@ == trim_of(s@),
{
    s.trim()
}

/// One transcript line: the author's name, a colon and a space, and the trimmed text.
pub open spec fn line_of(name: Seq<char>, text: Seq<char>) -> Seq<char> {
    name + seq![':', ' '] + trim_of(text)
}

/// `lines` joined with a newline between each two.
pub open spec fn joined(lines: Seq<Seq<char>>) -> Seq<char>
    decreases lines.len(),
{
    if lines.len() == 0 {
        Seq::empty()
    } else if lines.len() == 1 {
        lines[0]
    } else {
        joined(lines.drop_last()) + seq!['\n'] + lines.last()
    }
}

/// The transcript of lines given newest first: oldest line first.
pub open spec fn script_of(newest_first: Seq<Seq<char>>) -> Seq<char> {
    joined(newest_first.reverse())
}

/// The transcript line of a message by `name`.
pub fn script_line(name: &str, text: &str) -> (r: String)
    ensures
        r@ == line_of(name@, text@),
{
    let mut line = name.to_owned();
    line.append(": ");
    line.append(trimmed(text));
    proof {
        reveal_strlit(": ");
    }
    line
}

/// Joins lines given newest first into a transcript, oldest line first.
pub fn render_script(newest_first: &Vec<String>) -> (r: String)
    ensures
        r@ == script_of(newest_first@.map_values(|l: String| l@)),
{
    let ghost lines = newest_first@.map_values(|l: String| l@).reverse();
    let n = newest_first.len();
    let mut out = String::new();
    let mut i: usize = n;
    proof {
        reveal_strlit("\n");
    }
    while i > 0
        invariant
            i <= n,
            n == newest_first@.len(),
            lines == newest_first@.map_values(|l: String| l@).reverse(),
            out@ == joined(lines.take(n - i)),
            "\n"@ == seq!['\n'],
        decreases i,
    {
        i = i - 1;
        if i + 1 < n {
            out.append("\n");
        }
        out.append(newest_first[i].as_str());
        proof {
            let k = n - i;
            assert(lines[k - 1] == newest_first@[i as int]@);
            assert(lines.take(k).drop_last() =~= lines.take(k - 1));
            if k == 1 {
                assert(joined(lines.take(0)) == Seq::<char>::empty());
            }
        }
    }
    proof {
        assert(lines.take(n as int) =~= lines);
    }
    out
}

} // verus!
