//! Where syntax and comments stand after they were moved, and how files are shown.

use vstd::prelude::*;

use crate::comments::{
    at_upto, comment_texts, comments_at, is_internal, is_js_doc, marks_internal, taken,
    CommentFilter, CommentGroup, CommentKind, CommentText,
};
use crate::helpers::{can_move, moved};
use crate::paths::{is_path, node_at};
use crate::specifier::{displayed, identifier_text, is_file_url};
use crate::syntax::Tree;
use crate::text::{alphanumeric, begins_with};

verus! {

/// Every node of a tree that is moved is where it was, as many positions further, and is
/// otherwise the same; what stands nowhere stays there.
pub proof fn law_every_node_moves(t: Tree, by: nat, path: Seq<int>)
    requires
        is_path(t, path),
        can_move(t, by),
    ensures
        ({
            let a = node_at(t, path);
            let b = node_at(moved(t, by), path);
            &&& is_path(moved(t, by), path)
            &&& b.kind == a.kind && b.role == a.role && b.text == a.text && b.flags == a.flags
            &&& b.origin == a.origin && b.children.len() == a.children.len()
            &&& b.span.ctxt == a.span.ctxt
            &&& if a.span.lo == 0 && a.span.hi == 0 {
                b.span == a.span
            } else {
                b.span.lo == a.span.lo + by && b.span.hi == a.span.hi + by
            }
        }),
    decreases path.len(),
{
    if path.len() > 0 {
        assert(can_move(t.children[path[0]], by));
        law_every_node_moves(t.children[path[0]], by, path.skip(1));
        assert(moved(t, by).children[path[0]] == moved(t.children[path[0]], by));
    }
}

/// A comment is a JSDoc comment if it is written `/** .. */`.
pub proof fn law_js_docs_start_with_a_star(c: CommentText)
    ensures
        is_js_doc(c) <==> c.kind == CommentKind::Block && c.text.len() > 0 && c.text[0] == '*',
{
    reveal_strlit("*");
    if is_js_doc(c) {
        assert(c.text.take(1)[0] == '*');
    }
    if c.kind == CommentKind::Block && c.text.len() > 0 && c.text[0] == '*' {
        assert(c.text.take(1) =~= "*"@);
    }
}

/// Whether a comment is a JSDoc comment in which `@internal` stands.
pub open spec fn says_internal(c: CommentText) -> bool {
    &&& c.kind == CommentKind::Block && c.text.len() > 0 && c.text[0] == '*'
    &&& exists|i: int|
        0 <= i && i + 9 <= c.text.len() && #[trigger] c.text.subrange(i, i + 9) == "@internal"@
}

proof fn lemma_says_internal(c: CommentText)
    ensures
        marks_internal(c) <==> says_internal(c),
{
    law_js_docs_start_with_a_star(c);
    reveal_strlit("@internal");
    let word = "@internal"@;
    if marks_internal(c) {
        let i = choose|i: int| 0 <= i <= c.text.len() && #[trigger] begins_with(c.text.skip(i), word);
        assert(c.text.skip(i).take(9) =~= c.text.subrange(i, i + 9));
    }
    if says_internal(c) {
        let i = choose|i: int|
            0 <= i && i + 9 <= c.text.len() && #[trigger] c.text.subrange(i, i + 9) == word;
        assert(c.text.skip(i).take(9) =~= c.text.subrange(i, i + 9));
        assert(begins_with(c.text.skip(i), word));
    }
}

/// What starts at a position is internal if and only if one of the comments there says
/// so.
pub proof fn law_internal_is_what_is_said_to_be(groups: Seq<CommentGroup>, pos: int)
    ensures
        is_internal(groups, pos) <==> exists|i: int|
            0 <= i < comments_at(groups, pos).len() && says_internal(
                #[trigger] comments_at(groups, pos)[i],
            ),
{
    lemma_internal_upto(groups, groups.len(), pos);
    if is_internal(groups, pos) {
        let (i, j) = choose|i: int, j: int|
            #![trigger groups[i].comments@[j]]
            0 <= i < groups.len() && groups[i].pos == pos && 0 <= j < groups[i].comments@.len()
                && marks_internal(groups[i].comments@[j]@);
        assert(marks_internal(groups[i].comments@[j]@));
    }
}

proof fn lemma_internal_upto(groups: Seq<CommentGroup>, n: nat, pos: int)
    requires
        n <= groups.len(),
    ensures
        (exists|k: int|
            0 <= k < at_upto(groups, n, pos).len() && says_internal(
                #[trigger] at_upto(groups, n, pos)[k],
            )) <==> exists|i: int, j: int|
            #![trigger groups[i].comments@[j]]
            0 <= i < n && groups[i].pos == pos && 0 <= j < groups[i].comments@.len()
                && marks_internal(groups[i].comments@[j]@),
    decreases n,
{
    if n > 0 {
        let m = (n - 1) as nat;
        lemma_internal_upto(groups, m, pos);
        let before = at_upto(groups, m, pos);
        let after = at_upto(groups, n, pos);
        let own = comment_texts(groups[n - 1].comments@);
        assert forall|j: int| 0 <= j < own.len() implies (says_internal(#[trigger] own[j])
            <==> marks_internal(groups[n - 1].comments@[j]@)) by {
            lemma_says_internal(own[j]);
        }
        if exists|k: int| 0 <= k < before.len() && says_internal(#[trigger] before[k]) {
            let k = choose|k: int| 0 <= k < before.len() && says_internal(#[trigger] before[k]);
            assert(after[k] == before[k]);
        }
        if groups[n - 1].pos == pos {
            if exists|k: int| 0 <= k < after.len() && says_internal(#[trigger] after[k]) {
                let k = choose|k: int| 0 <= k < after.len() && says_internal(#[trigger] after[k]);
                if k < before.len() {
                    assert(after[k] == before[k]);
                } else {
                    let j = k - before.len();
                    assert(after[k] == own[j]);
                    assert(marks_internal(groups[n - 1].comments@[j]@));
                }
            }
            if exists|j: int|
                0 <= j < own.len() && marks_internal(#[trigger] groups[n - 1].comments@[j]@) {
                let j = choose|j: int|
                    0 <= j < own.len() && marks_internal(#[trigger] groups[n - 1].comments@[j]@);
                assert(after[before.len() + j] == own[j]);
                assert(says_internal(own[j]));
            }
        }
    }
}

/// Whether a comment is another, as many positions further.
pub open spec fn is_moved(a: CommentText, b: CommentText, by: nat) -> bool {
    &&& b.kind == a.kind && b.text == a.text && b.span.ctxt == a.span.ctxt
    &&& a.span.lo <= a.span.hi && a.span.hi + by <= u32::MAX ==> b.span.lo == a.span.lo + by
        && b.span.hi == a.span.hi + by
}

/// How many of the first `n` comments are taken over.
pub open spec fn count_taken(s: Seq<CommentText>, n: nat, filter: CommentFilter) -> nat
    decreases n,
{
    if n == 0 {
        0
    } else {
        count_taken(s, (n - 1) as nat, filter) + if wants(filter, s[n - 1]) {
            1nat
        } else {
            0nat
        }
    }
}

/// Whether a comment is one of those that are wanted: all, the JSDoc comments, or the
/// others.
pub open spec fn wants(filter: CommentFilter, c: CommentText) -> bool {
    let js_doc = c.kind == CommentKind::Block && c.text.len() > 0 && c.text[0] == '*';
    match filter {
        CommentFilter::All => true,
        CommentFilter::OnlyJsDoc => js_doc,
        CommentFilter::NoJsDoc => !js_doc,
    }
}

/// The comments that are wanted are taken over, in their order, each as many positions
/// further, and no others are.
pub proof fn law_comments_are_taken_in_order(
    s: Seq<CommentText>,
    filter: CommentFilter,
    by: nat,
    i: int,
)
    requires
        0 <= i < s.len(),
    ensures
        taken(s, filter, by).len() == count_taken(s, s.len(), filter),
        wants(filter, s[i]) ==> {
            let k = count_taken(s, i as nat, filter) as int;
            &&& 0 <= k < taken(s, filter, by).len()
            &&& is_moved(s[i], taken(s, filter, by)[k], by)
        },
    decreases s.len(),
{
    let rest = s.drop_last();
    law_js_docs_start_with_a_star(s.last());
    lemma_count_taken(rest, filter, by);
    lemma_count_same(s, rest, rest.len(), filter);
    assert(s[s.len() - 1] == s.last());
    if i < rest.len() {
        law_comments_are_taken_in_order(rest, filter, by, i);
        lemma_count_same(s, rest, i as nat, filter);
        assert(rest[i] == s[i]);
        let k = count_taken(rest, i as nat, filter) as int;
        if wants(filter, s[i]) {
            assert(taken(s, filter, by)[k] == taken(rest, filter, by)[k]);
        }
    }
}

proof fn lemma_count_taken(s: Seq<CommentText>, filter: CommentFilter, by: nat)
    ensures
        taken(s, filter, by).len() == count_taken(s, s.len(), filter),
    decreases s.len(),
{
    if s.len() > 0 {
        let rest = s.drop_last();
        law_js_docs_start_with_a_star(s.last());
        lemma_count_taken(rest, filter, by);
        lemma_count_same(s, rest, rest.len(), filter);
        assert(s[s.len() - 1] == s.last());
    }
}

proof fn lemma_count_same(
    a: Seq<CommentText>,
    b: Seq<CommentText>,
    n: nat,
    filter: CommentFilter,
)
    requires
        n <= a.len(),
        n <= b.len(),
        forall|i: int| 0 <= i < n ==> a[i] == b[i],
    ensures
        count_taken(a, n, filter) == count_taken(b, n, filter),
    decreases n,
{
    if n > 0 {
        lemma_count_same(a, b, (n - 1) as nat, filter);
    }
}

/// A file is shown by what comes behind the root folder, and any other module by its URL.
pub proof fn law_files_are_shown_below_their_root(root: Seq<char>, url: Seq<char>)
    ensures
        !is_file_url(url) ==> displayed(Some(root), url) == url,
        is_file_url(url) && root.is_prefix_of(url) ==> root + displayed(Some(root), url) == url,
        !root.is_prefix_of(url) ==> displayed(Some(root), url) == url,
        displayed(None, url) == url,
{
    if root.is_prefix_of(url) {
        assert(url.take(root.len() as int) =~= root);
        if is_file_url(url) {
            assert(root + url.skip(root.len() as int) =~= url);
        }
    } else if begins_with(url, root) {
        assert(root =~= url.subrange(0, root.len() as int));
    }
}

/// As an identifier a text keeps its letters and numbers where they stand, and has
/// underscores for the rest.
pub proof fn law_identifiers_keep_letters(s: Seq<char>, i: int)
    requires
        0 <= i < s.len(),
    ensures
        identifier_text(s).len() == s.len(),
        alphanumeric(s[i]) ==> identifier_text(s)[i] == s[i],
        !alphanumeric(s[i]) ==> identifier_text(s)[i] == '_',
{
}

}
