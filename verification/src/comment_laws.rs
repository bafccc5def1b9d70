//! Spaces and comments mean nothing, and block comments nest.

use vstd::prelude::*;

use crate::chars::spec_is_space;
use crate::error::line_end;
use crate::lexical::{
    block_comment_end, char_at, lemma_block_comment_end, line_comment_end, trivia, Trivia,
};

verus! {

/// Where `k` of the open comments end, the others go on.
proof fn lemma_outer_comments(s: Seq<char>, i: int, k: nat, outer: nat)
    requires
        0 <= i <= s.len(),
    ensures
        match block_comment_end(s, i, k) {
            Some(e) => block_comment_end(s, i, k + outer) == block_comment_end(s, e, outer),
            None => k > 0 ==> block_comment_end(s, i, k + outer) is None,
        },
    decreases s.len() - i,
{
    if k > 0 && i < s.len() {
        if s[i] == '/' && char_at(s, i + 1) == Some('*') {
            lemma_outer_comments(s, i + 2, k + 1, outer);
        } else if s[i] == '*' && char_at(s, i + 1) == Some('/') {
            lemma_outer_comments(s, i + 2, (k - 1) as nat, outer);
        } else {
            lemma_outer_comments(s, i + 1, k, outer);
        }
    }
}

/// Block comments nest: a comment in a comment is skipped whole, so that its end does not end the
/// outer one. Where it has no end, neither has the outer one.
pub proof fn law_comments_nest(s: Seq<char>, i: int, depth: nat)
    requires
        0 <= i,
        i + 1 < s.len(),
        s[i] == '/',
        s[i + 1] == '*',
        depth > 0,
    ensures
        match block_comment_end(s, i + 2, 1) {
            Some(e) => i + 2 < e <= s.len() && block_comment_end(s, i, depth) == block_comment_end(
                s,
                e,
                depth,
            ),
            None => block_comment_end(s, i, depth) is None,
        },
{
    lemma_outer_comments(s, i + 2, 1, depth);
    lemma_block_comment_end(s, i + 2, 1);
    if i + 2 < s.len() {
        if let Some(e) = block_comment_end(s, i + 2, 1) {
            if e == i + 2 {
                lemma_comment_takes_room(s, i + 2);
            }
        }
    }
}

proof fn lemma_comment_takes_room(s: Seq<char>, i: int)
    requires
        0 <= i < s.len(),
    ensures
        block_comment_end(s, i, 1) matches Some(e) ==> e > i,
{
    if s[i] == '/' && char_at(s, i + 1) == Some('*') {
        lemma_block_comment_end(s, i + 2, 2);
    } else if s[i] == '*' && char_at(s, i + 1) == Some('/') {
        lemma_block_comment_end(s, i + 2, 0);
    } else {
        lemma_block_comment_end(s, i + 1, 1);
    }
}

proof fn lemma_plain_comment(s: Seq<char>, i: int, end: int)
    requires
        0 <= i <= end,
        end + 1 < s.len(),
        forall|k: int| i <= k < end ==> #[trigger] s[k] != '*' && s[k] != '/',
        s[end] == '*',
        s[end + 1] == '/',
    ensures
        block_comment_end(s, i, 1) == Some(end + 2),
    decreases end - i,
{
    if i < end {
        lemma_plain_comment(s, i + 1, end);
    } else {
        assert(block_comment_end(s, end + 2, 0) == Some(end + 2));
    }
}

proof fn lemma_plain_line(s: Seq<char>, i: int, end: int)
    requires
        0 <= i <= end < s.len(),
        forall|k: int| i <= k < end ==> #[trigger] s[k] != '\n',
        s[end] == '\n',
    ensures
        line_end(s, i) == end,
    decreases end - i,
{
    if i < end {
        lemma_plain_line(s, i + 1, end);
    }
}

/// A space means nothing before a token, nor does a comment: `//` and the rest of the line, or
/// `/*` and what follows up to `*/`. An unclosed `/*` is a problem of the place where it stands.
pub proof fn law_comments_mean_nothing(s: Seq<char>, i: int, end: int)
    requires
        0 <= i,
        i + 2 <= end,
        end + 1 < s.len(),
    ensures
        spec_is_space(s[i]) ==> trivia(s, i) == trivia(s, i + 1),
        ({
            &&& s[i] == '/' && s[i + 1] == '/'
            &&& forall|k: int| i + 2 <= k < end ==> #[trigger] s[k] != '\n'
            &&& s[end] == '\n'
        }) ==> trivia(s, i) == trivia(s, end + 1),
        ({
            &&& s[i] == '/' && s[i + 1] == '*'
            &&& forall|k: int| i + 2 <= k < end ==> #[trigger] s[k] != '*' && s[k] != '/'
            &&& s[end] == '*' && s[end + 1] == '/'
        }) ==> trivia(s, i) == trivia(s, end + 2),
        ({
            &&& s[i] == '/' && s[i + 1] == '*'
            &&& block_comment_end(s, i + 2, 1) is None
        }) ==> trivia(s, i) == Trivia::Unterminated(i),
{
    if (forall|k: int| i + 2 <= k < end ==> #[trigger] s[k] != '\n') && s[end] == '\n' {
        lemma_plain_line(s, i + 2, end);
        assert(line_comment_end(s, i + 2) == end + 1);
    }
    if (forall|k: int| i + 2 <= k < end ==> #[trigger] s[k] != '*' && s[k] != '/') && s[end] == '*'
        && s[end + 1] == '/' {
        lemma_plain_comment(s, i + 2, end);
    }
}

} // verus!
