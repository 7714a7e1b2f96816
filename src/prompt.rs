use vstd::prelude::*;
use vstd::string::*;

use crate::text::first_newline;

verus! {

broadcast use vstd::string::group_string_axioms;

/// The standing instructions for the editing agent.
pub const INSTRUCTIONS: &'static str = "You are a code modification assistant. Your task is to precisely apply specified changes to given code structures while adhering to the following guidelines:

1. Make only the changes explicitly requested.
2. Preserve all existing code not mentioned in the change request.
3. Maintain all existing `...` placeholders without modification.
4. Do not introduce any new code, comments, or placeholders unless specifically requested.
5. Output the entire updated file structure.
6. Provide only the modified code without explanations or questions.
7. Follow the edits carefully, ensuring all requested changes are implemented.
8. Merge edits into existing items if possible.
9. When adding new methods or implementations, place them in the appropriate location within the existing structure.
10. Pay close attention to the placement of new structs, traits, and implementations, inserting them logically within the file.
11. Ensure that all new additions are included in the output, even if they require creating new sections in the file.

Your response should consist solely of the updated code structure.";

/// The request to the agent: the collapsed file in a fenced block tagged with
/// its language, then the edits to make.
pub fn build_prompt(language: &str, collapsed_document: &str, patch: &str) -> (r: String)
    ensures
        r@ == "Given the following file structure:\n\n```"@ + language@ + "\n"@ + collapsed_document@
            + "\n```\n\nMake the follow edits:\n"@ + patch@,
{
    let mut r = String::new();
    r.append("Given the following file structure:\n\n```");
    r.append(language);
    r.append("\n");
    r.append(collapsed_document);
    r.append("\n```\n\nMake the follow edits:\n");
    r.append(patch);
    r
}

/// The text opens with three backticks.
pub open spec fn opens_fence(s: Seq<char>) -> bool {
    s.len() >= 3 && s[0] == '`' && s[1] == '`' && s[2] == '`'
}

/// Without an opening fence line: when the text opens with three backticks,
/// everything up to and including its first line feed (or just the backticks
/// when it has none) is dropped.
pub open spec fn drop_opening_fence(s: Seq<char>) -> Seq<char> {
    if !opens_fence(s) {
        s
    } else if exists|i: int| first_newline(s, i) {
        let i = choose|i: int| first_newline(s, i);
        s.subrange(i + 1, s.len() as int)
    } else {
        s.subrange(3, s.len() as int)
    }
}

/// The text ends with a line feed and three backticks.
pub open spec fn closes_fence(s: Seq<char>) -> bool {
    s.len() >= 4 && s.subrange(s.len() - 4, s.len() as int) == seq!['\n', '`', '`', '`']
}

/// Without closing fences: every trailing line feed followed by three backticks
/// is dropped.
pub open spec fn drop_closing_fences(s: Seq<char>) -> Seq<char>
    decreases s.len(),
{
    if closes_fence(s) {
        drop_closing_fences(s.subrange(0, s.len() - 4))
    } else {
        s
    }
}

/// The code of an agent's reply, without the fence around it.
pub fn strip_code_fence(content: &str) -> (r: String)
    ensures
        r@ == drop_closing_fences(drop_opening_fence(content@)),
{
    let n = content.unicode_len();
    let ghost s = content@;
    let opens = n >= 3 && content.get_char(0) == '`' && content.get_char(1) == '`'
        && content.get_char(2) == '`';
    let start: usize = if !opens {
        0
    } else {
        let mut i: usize = 0;
        while i < n && content.get_char(i) != '\n'
            invariant
                i <= n,
                n == s.len(),
                s == content@,
                forall|j: int| 0 <= j < i ==> s[j] != '\n',
            decreases n - i,
        {
            i += 1;
        }
        if i < n {
            assert(first_newline(s, i as int));
            assert forall|j: int| first_newline(s, j) implies j == i by {
                if j < i {
                } else if j > i {
                    assert(s[i as int] == '\n');
                }
            }
            i + 1
        } else {
            assert(!exists|j: int| first_newline(s, j));
            3
        }
    };
    let rest = content.substring_char(start, n);
    assert(rest@ == drop_opening_fence(s)) by {
        if !opens {
            assert(s.subrange(0, n as int) =~= s);
        }
    };
    let mut end: usize = n - start;
    let ghost t = rest@;
    assert(t.subrange(0, end as int) =~= t);
    while end >= 4 && rest.get_char(end - 4) == '\n' && rest.get_char(end - 3) == '`'
        && rest.get_char(end - 2) == '`' && rest.get_char(end - 1) == '`'
        invariant
            end <= t.len(),
            t == rest@,
            drop_closing_fences(t) == drop_closing_fences(t.subrange(0, end as int)),
        decreases end,
    {
        let ghost u = t.subrange(0, end as int);
        assert(u.subrange(u.len() - 4, u.len() as int) =~= seq!['\n', '`', '`', '`']);
        assert(u.subrange(0, u.len() - 4) =~= t.subrange(0, end - 4));
        end -= 4;
    }
    let ghost u = t.subrange(0, end as int);
    assert(!closes_fence(u)) by {
        if u.len() >= 4 {
            assert(u.subrange(u.len() - 4, u.len() as int)[0] == u[u.len() - 4]);
            assert(u.subrange(u.len() - 4, u.len() as int)[1] == u[u.len() - 3]);
            assert(u.subrange(u.len() - 4, u.len() as int)[2] == u[u.len() - 2]);
            assert(u.subrange(u.len() - 4, u.len() as int)[3] == u[u.len() - 1]);
        }
    }
    rest.substring_char(0, end).to_owned()
}

} // verus!
