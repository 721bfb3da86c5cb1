//! Comments: what follows `//` on a line is no part of the program.
use vstd::prelude::*;
use vstd::string::StrSliceExecFns;
use vstd::string::StringExecFns;
use crate::lexer::characters;

verus! {

/// The position of the first line feed at or after `from`, or the end of
/// the text.
pub open spec fn line_end(text: Seq<char>, from: int) -> int
    decreases text.len() - from,
{
    if from < 0 || from >= text.len() {
        text.len() as int
    } else if text[from] == '\n' {
        from
    } else {
        line_end(text, from + 1)
    }
}

/// Where the line from `from` to the line feed at `end` stops: before a
/// carriage return that stands right before the line feed.
pub open spec fn content_end(text: Seq<char>, from: int, end: int) -> int {
    if end < text.len() && from < end && text[end - 1] == '\r' {
        end - 1
    } else {
        end
    }
}

/// The position of the first `//` between `from` and `end`, or `end`.
pub open spec fn comment_start(text: Seq<char>, from: int, end: int) -> int
    decreases end - from,
{
    if from >= end {
        end
    } else if text[from] == '/' && from + 1 < end && text[from + 1] == '/' {
        from
    } else {
        comment_start(text, from + 1, end)
    }
}

/// The text from `from` on without its comments: each line up to its
/// first `//`, the lines joined by line feeds. A carriage return right
/// before a line feed belongs to the line ending, and a line feed at the
/// end of the text starts no line.
pub open spec fn uncommented_from(text: Seq<char>, from: int) -> Seq<char>
    decreases text.len() - from,
{
    if from < 0 || from >= text.len() {
        Seq::empty()
    } else {
        let end = line_end(text, from);
        let line = text.subrange(from, comment_start(text, from, content_end(text, from, end)));
        if end + 1 >= text.len() || end < from {
            line
        } else {
            line + seq!['\n'] + uncommented_from(text, end + 1)
        }
    }
}

/// The text without its comments.
pub open spec fn uncommented(text: Seq<char>) -> Seq<char> {
    uncommented_from(text, 0)
}

/// Strips the comments from a program text: on each line, `//` and what
/// follows it.
pub fn strip_comments(input: &str) -> (r: String)
    ensures
        r@ == uncommented(input@),
{
    let all = characters(input);
    let n: usize = all.len();
    let mut out = String::new();
    let mut i: usize = 0;
    proof {
        assert(out@ + uncommented_from(all@, 0) =~= uncommented(all@));
    }
    while i < n
        invariant
            0 <= i <= n,
            n == all@.len(),
            all@ == input@,
            out@ + uncommented_from(all@, i as int) == uncommented(all@),
        decreases n - i,
    {
        let mut end: usize = i;
        while end < n && all[end] != '\n'
            invariant
                i <= end <= n,
                n == all@.len(),
                line_end(all@, i as int) == line_end(all@, end as int),
            decreases n - end,
        {
            end += 1;
        }
        let stop: usize = if end < n && i < end && all[end - 1] == '\r' {
            end - 1
        } else {
            end
        };
        let mut cut: usize = i;
        while cut < stop && !(all[cut] == '/' && cut + 1 < stop && all[cut + 1] == '/')
            invariant
                i <= cut <= stop <= n,
                n == all@.len(),
                comment_start(all@, i as int, stop as int) == comment_start(
                    all@,
                    cut as int,
                    stop as int,
                ),
            decreases stop - cut,
        {
            cut += 1;
        }
        let ghost rest = uncommented_from(all@, i as int);
        let ghost before = out@;
        proof {
            assert(line_end(all@, i as int) == end);
            assert(content_end(all@, i as int, end as int) == stop);
            assert(comment_start(all@, i as int, stop as int) == cut);
        }
        out.append(input.substring_char(i, cut));
        if end < n && end + 1 < n {
            out.append("\n");
            proof {
                reveal_strlit("\n");
                assert("\n"@ =~= seq!['\n']);
                assert(rest == all@.subrange(i as int, cut as int) + seq!['\n']
                    + uncommented_from(all@, end + 1));
                assert(out@ + uncommented_from(all@, end + 1) =~= before + rest);
            }
            i = end + 1;
        } else {
            proof {
                assert(rest == all@.subrange(i as int, cut as int));
                assert(out@ + uncommented_from(all@, n as int) =~= before + rest);
            }
            i = n;
        }
    }
    proof {
        assert(out@ + uncommented_from(all@, n as int) =~= out@);
    }
    out
}

} // verus!
