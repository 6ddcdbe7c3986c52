//! Comments, which are kept apart from the syntax tree, by position.

use vstd::prelude::*;

use crate::syntax::Span;
use crate::text::{begins_with, contains_text, holds_text, starts_with};

verus! {

/// How a comment is written: `// ..` or `/* .. */`.
#[derive(Clone, Copy, PartialEq, Eq, Structural, Debug)]
pub enum CommentKind {
    Line,
    Block,
}

/// A comment, with its text without the marks at its ends.
#[derive(Debug)]
pub struct Comment {
    pub kind: CommentKind,
    pub span: Span,
    pub text: String,
}

/// The comments at one position.
#[derive(Debug)]
pub struct CommentGroup {
    pub pos: u32,
    pub comments: Vec<Comment>,
}

/// The comments of a source file or of an output: those that lead a node, by
/// the position where it starts, and those that trail one, by the position
/// where it ends.
#[derive(Debug)]
pub struct Comments {
    pub leading: Vec<CommentGroup>,
    pub trailing: Vec<CommentGroup>,
}

/// Which comments are taken over.
#[derive(Clone, Copy, PartialEq, Eq, Structural, Debug)]
pub enum CommentFilter {
    All,
    OnlyJsDoc,
    NoJsDoc,
}

/// What a [`Comment`] stands for.
#[verifier::ext_equal]
pub struct CommentText {
    pub kind: CommentKind,
    pub span: Span,
    pub text: Seq<char>,
}

impl Comment {
    pub open spec fn view(&self) -> CommentText {
        CommentText { kind: self.kind, span: self.span, text: self.text@ }
    }
}

/// What a sequence of comments stands for.
pub open spec fn comment_texts(s: Seq<Comment>) -> Seq<CommentText> {
    Seq::new(s.len(), |i: int| s[i]@)
}

/// The comments of the first `n` groups that stand at a position.
pub open spec fn at_upto(groups: Seq<CommentGroup>, n: nat, pos: int) -> Seq<CommentText>
    decreases n,
{
    if n == 0 {
        Seq::empty()
    } else if groups[n - 1].pos == pos {
        at_upto(groups, (n - 1) as nat, pos) + comment_texts(groups[n - 1].comments@)
    } else {
        at_upto(groups, (n - 1) as nat, pos)
    }
}

/// The comments at a position.
pub open spec fn comments_at(groups: Seq<CommentGroup>, pos: int) -> Seq<CommentText> {
    at_upto(groups, groups.len(), pos)
}

/// Whether a comment is a JSDoc comment, `/** .. */`.
pub open spec fn is_js_doc(c: CommentText) -> bool {
    c.kind == CommentKind::Block && begins_with(c.text, "*"@)
}

/// Whether a comment is taken over.
pub open spec fn is_kept(filter: CommentFilter, c: CommentText) -> bool {
    match filter {
        CommentFilter::All => true,
        CommentFilter::OnlyJsDoc => is_js_doc(c),
        CommentFilter::NoJsDoc => !is_js_doc(c),
    }
}

/// A comment moved up by `by`.
pub open spec fn moved_comment(c: CommentText, by: nat) -> CommentText {
    CommentText {
        span: Span {
            lo: (if c.span.lo <= c.span.hi {
                c.span.lo + by
            } else {
                c.span.hi + by
            }) as u32,
            hi: (if c.span.lo <= c.span.hi {
                c.span.hi + by
            } else {
                c.span.lo + by
            }) as u32,
            ctxt: c.span.ctxt,
        },
        ..c
    }
}

/// The comments that are taken over, moved up by `by`.
pub open spec fn taken(s: Seq<CommentText>, filter: CommentFilter, by: nat) -> Seq<CommentText>
    decreases s.len(),
{
    if s.len() == 0 {
        Seq::empty()
    } else if is_kept(filter, s.last()) {
        taken(s.drop_last(), filter, by).push(moved_comment(s.last(), by))
    } else {
        taken(s.drop_last(), filter, by)
    }
}

/// Whether every position of the comments can be moved up by `by`.
pub open spec fn comments_can_move(groups: Seq<CommentGroup>, by: nat) -> bool {
    forall|i: int, j: int|
        #![trigger groups[i].comments@[j]]
        0 <= i < groups.len() && 0 <= j < groups[i].comments@.len() ==> groups[i].pos + by
            <= u32::MAX && groups[i].comments@[j].span.lo + by <= u32::MAX
            && groups[i].comments@[j].span.hi + by <= u32::MAX
}

proof fn lemma_taken_add(
    a: Seq<CommentText>,
    b: Seq<CommentText>,
    filter: CommentFilter,
    by: nat,
)
    ensures
        taken(a + b, filter, by) == taken(a, filter, by) + taken(b, filter, by),
    decreases b.len(),
{
    if b.len() == 0 {
        assert(a + b =~= a);
        assert(taken(a, filter, by) + taken(b, filter, by) =~= taken(a, filter, by));
    } else {
        assert((a + b).drop_last() =~= a + b.drop_last());
        lemma_taken_add(a, b.drop_last(), filter, by);
        assert(taken(a + b, filter, by) =~= taken(a, filter, by) + taken(b, filter, by));
    }
}

proof fn lemma_at_upto_same(a: Seq<CommentGroup>, b: Seq<CommentGroup>, n: nat, pos: int)
    requires
        n <= a.len(),
        n <= b.len(),
        a.take(n as int) == b.take(n as int),
    ensures
        at_upto(a, n, pos) == at_upto(b, n, pos),
    decreases n,
{
    if n > 0 {
        assert(a[n - 1] == a.take(n as int)[n - 1]);
        assert(b[n - 1] == b.take(n as int)[n - 1]);
        assert(a.take(n - 1) =~= a.take(n as int).take(n - 1));
        assert(b.take(n - 1) =~= b.take(n as int).take(n - 1));
        lemma_at_upto_same(a, b, (n - 1) as nat, pos);
    }
}

/// Whether a comment is a JSDoc comment.
fn js_doc(c: &Comment) -> (r: bool)
    ensures
        r == is_js_doc(c@),
{
    c.kind == CommentKind::Block && starts_with(c.text.as_str(), "*")
}

fn keeps(filter: CommentFilter, c: &Comment) -> (r: bool)
    ensures
        r == is_kept(filter, c@),
{
    match filter {
        CommentFilter::All => true,
        CommentFilter::OnlyJsDoc => js_doc(c),
        CommentFilter::NoJsDoc => !js_doc(c),
    }
}

/// A copy of a comment, moved to where its source file starts.
fn adjusted_comment(comment: &Comment, source_file_start_pos: u32) -> (r: Comment)
    requires
        comment.span.lo + source_file_start_pos <= u32::MAX,
        comment.span.hi + source_file_start_pos <= u32::MAX,
    ensures
        r@ == moved_comment(comment@, source_file_start_pos as nat),
{
    let a: u32 = source_file_start_pos + comment.span.lo;
    let b: u32 = source_file_start_pos + comment.span.hi;
    let span: Span = if a <= b {
        Span { lo: a, hi: b, ctxt: comment.span.ctxt }
    } else {
        Span { lo: b, hi: a, ctxt: comment.span.ctxt }
    };
    Comment { kind: comment.kind, span, text: comment.text.clone() }
}

/// The comments of a source file that are taken over, moved to where the file
/// starts.
fn fill(
    source_file_start_pos: u32,
    source: &Vec<CommentGroup>,
    global: &mut Vec<CommentGroup>,
    filter: CommentFilter,
)
    requires
        comments_can_move(source@, source_file_start_pos as nat),
    ensures
        forall|pos: int|
            #![trigger comments_at(final(global)@, pos)]
            comments_at(final(global)@, pos) == comments_at(old(global)@, pos) + taken(
                comments_at(source@, pos - source_file_start_pos),
                filter,
                source_file_start_pos as nat,
            ),
{
    let ghost before = global@;
    let mut i: usize = 0;
    proof {
        assert forall|pos: int| #[trigger] comments_at(global@, pos) == comments_at(before, pos)
            + taken(
            at_upto(source@, 0, pos - source_file_start_pos),
            filter,
            source_file_start_pos as nat,
        ) by {
            assert(comments_at(before, pos) + Seq::<CommentText>::empty() =~= comments_at(
                before,
                pos,
            ));
        }
    }
    while i < source.len()
        invariant
            i <= source@.len(),
            comments_can_move(source@, source_file_start_pos as nat),
            forall|pos: int| #[trigger]
                comments_at(global@, pos) == comments_at(before, pos) + taken(
                    at_upto(source@, i as nat, pos - source_file_start_pos),
                    filter,
                    source_file_start_pos as nat,
                ),
        decreases source@.len() - i,
    {
        let group: &CommentGroup = &source[i];
        let ghost all = comment_texts(group.comments@);
        let mut comments: Vec<Comment> = Vec::new();
        let mut j: usize = 0;
        assert(all.take(0) =~= Seq::<CommentText>::empty());
        assert(comment_texts(comments@) =~= Seq::<CommentText>::empty());
        while j < group.comments.len()
            invariant
                j <= group.comments@.len(),
                i < source@.len(),
                group == source@[i as int],
                all == comment_texts(group.comments@),
                comments_can_move(source@, source_file_start_pos as nat),
                j > 0 ==> group.pos + source_file_start_pos <= u32::MAX,
                comments@.len() > 0 ==> j > 0,
                comment_texts(comments@) == taken(
                    all.take(j as int),
                    filter,
                    source_file_start_pos as nat,
                ),
            decreases group.comments@.len() - j,
        {
            let c: &Comment = &group.comments[j];
            assert(source@[i as int].comments@[j as int] == c);
            assert(all.take(j + 1).drop_last() =~= all.take(j as int));
            assert(all.take(j + 1).last() == c@);
            if keeps(filter, c) {
                let ghost earlier = comments@;
                comments.push(adjusted_comment(c, source_file_start_pos));
                assert(comment_texts(comments@) =~= comment_texts(earlier).push(
                    moved_comment(c@, source_file_start_pos as nat),
                ));
            }
            j = j + 1;
        }
        assert(all.take(j as int) =~= all);
        let ghost kept = comment_texts(comments@);
        let ghost earlier = global@;
        if comments.len() > 0 {
            global.push(CommentGroup { pos: source_file_start_pos + group.pos, comments });
        }
        proof {
            assert forall|pos: int| #[trigger] comments_at(global@, pos) == comments_at(before, pos)
                + taken(
                at_upto(source@, (i + 1) as nat, pos - source_file_start_pos),
                filter,
                source_file_start_pos as nat,
            ) by {
                let from = pos - source_file_start_pos;
                let by = source_file_start_pos as nat;
                assert(comments_at(earlier, pos) == comments_at(before, pos) + taken(
                    at_upto(source@, i as nat, from),
                    filter,
                    by,
                ));
                if kept.len() > 0 {
                    assert(global@.take(earlier.len() as int) =~= earlier.take(
                        earlier.len() as int,
                    ));
                    lemma_at_upto_same(global@, earlier, earlier.len(), pos);
                }
                if group.pos == from {
                    lemma_taken_add(at_upto(source@, i as nat, from), all, filter, by);
                    assert(comments_at(before, pos) + (taken(
                        at_upto(source@, i as nat, from),
                        filter,
                        by,
                    ) + kept) =~= comments_at(before, pos) + taken(
                        at_upto(source@, i as nat, from),
                        filter,
                        by,
                    ) + kept);
                    assert(kept.len() == 0 ==> comments_at(earlier, pos) + kept =~= comments_at(
                        earlier,
                        pos,
                    ));
                }
            }
        }
        i = i + 1;
    }
}

/// Adds the leading comments of a source file to those of the output.
pub fn fill_leading_comments(
    source_file_start_pos: u32,
    source: &Comments,
    global: &mut Comments,
    filter: CommentFilter,
)
    requires
        comments_can_move(source.leading@, source_file_start_pos as nat),
    ensures
        final(global).trailing == old(global).trailing,
        forall|pos: int|
            #![trigger comments_at(final(global).leading@, pos)]
            comments_at(final(global).leading@, pos) == comments_at(old(global).leading@, pos)
                + taken(
                comments_at(source.leading@, pos - source_file_start_pos),
                filter,
                source_file_start_pos as nat,
            ),
{
    fill(source_file_start_pos, &source.leading, &mut global.leading, filter);
}

/// Adds the trailing comments of a source file to those of the output.
pub fn fill_trailing_comments(source_file_start_pos: u32, source: &Comments, global: &mut Comments)
    requires
        comments_can_move(source.trailing@, source_file_start_pos as nat),
    ensures
        final(global).leading == old(global).leading,
        forall|pos: int|
            #![trigger comments_at(final(global).trailing@, pos)]
            comments_at(final(global).trailing@, pos) == comments_at(old(global).trailing@, pos)
                + taken(
                comments_at(source.trailing@, pos - source_file_start_pos),
                CommentFilter::All,
                source_file_start_pos as nat,
            ),
{
    fill(source_file_start_pos, &source.trailing, &mut global.trailing, CommentFilter::All);
}

/// Whether every position of the comments can be moved up by `by`.
pub fn comments_fit(groups: &Vec<CommentGroup>, by: u32) -> (r: bool)
    ensures
        r == comments_can_move(groups@, by as nat),
{
    let mut i: usize = 0;
    while i < groups.len()
        invariant
            i <= groups@.len(),
            forall|k: int, j: int|
                #![trigger groups@[k].comments@[j]]
                0 <= k < i && 0 <= j < groups@[k].comments@.len() ==> groups@[k].pos + by
                    <= u32::MAX && groups@[k].comments@[j].span.lo + by <= u32::MAX
                    && groups@[k].comments@[j].span.hi + by <= u32::MAX,
        decreases groups@.len() - i,
    {
        let group: &CommentGroup = &groups[i];
        let mut j: usize = 0;
        while j < group.comments.len()
            invariant
                i < groups@.len(),
                group == groups@[i as int],
                j <= group.comments@.len(),
                forall|k: int|
                    #![trigger group.comments@[k]]
                    0 <= k < j ==> group.pos + by <= u32::MAX && group.comments@[k].span.lo + by
                        <= u32::MAX && group.comments@[k].span.hi + by <= u32::MAX,
            decreases group.comments@.len() - j,
        {
            let room: u32 = u32::MAX - by;
            let c: &Comment = &group.comments[j];
            if group.pos > room || c.span.lo > room || c.span.hi > room {
                assert(groups@[i as int].comments@[j as int] == c);
                return false;
            }
            j = j + 1;
        }
        i = i + 1;
    }
    true
}

/// Whether a comment marks what it leads as internal.
pub open spec fn marks_internal(c: CommentText) -> bool {
    is_js_doc(c) && holds_text(c.text, "@internal"@)
}

/// Whether what starts at a position is marked as internal.
pub open spec fn is_internal(groups: Seq<CommentGroup>, pos: int) -> bool {
    exists|i: int, j: int|
        #![trigger groups[i].comments@[j]]
        0 <= i < groups.len() && groups[i].pos == pos && 0 <= j < groups[i].comments@.len()
            && marks_internal(groups[i].comments@[j]@)
}

/// Whether what starts at a position is marked as internal by a JSDoc comment.
pub fn has_internal_jsdoc(source: &Comments, pos: u32) -> (r: bool)
    ensures
        r == is_internal(source.leading@, pos as int),
{
    let groups: &Vec<CommentGroup> = &source.leading;
    let mut i: usize = 0;
    while i < groups.len()
        invariant
            i <= groups@.len(),
            groups@ == source.leading@,
            forall|k: int, j: int|
                #![trigger groups@[k].comments@[j]]
                0 <= k < i && groups@[k].pos == pos && 0 <= j < groups@[k].comments@.len()
                    ==> !marks_internal(groups@[k].comments@[j]@),
        decreases groups@.len() - i,
    {
        let group: &CommentGroup = &groups[i];
        if group.pos == pos {
            let mut j: usize = 0;
            while j < group.comments.len()
                invariant
                    i < groups@.len(),
                    group == groups@[i as int],
                    group.pos == pos,
                    groups@ == source.leading@,
                    j <= group.comments@.len(),
                    forall|k: int|
                        #![trigger group.comments@[k]]
                        0 <= k < j ==> !marks_internal(group.comments@[k]@),
                decreases group.comments@.len() - j,
            {
                let c: &Comment = &group.comments[j];
                if js_doc(c) && contains_text(c.text.as_str(), "@internal") {
                    assert(groups@[i as int].comments@[j as int] == c);
                    return true;
                }
                j = j + 1;
            }
        }
        i = i + 1;
    }
    false
}

/// Each leading comment goes into exactly one of the two outputs: a JSDoc comment
/// into the declarations, any other into the code.
pub proof fn law_js_docs_and_the_rest(s: Seq<CommentText>, by: nat)
    ensures
        taken(s, CommentFilter::OnlyJsDoc, by).len() + taken(s, CommentFilter::NoJsDoc, by).len()
            == s.len(),
        forall|i: int|
            0 <= i < s.len() && is_js_doc(#[trigger] s[i]) ==> taken(
                s,
                CommentFilter::OnlyJsDoc,
                by,
            ).contains(moved_comment(s[i], by)),
        forall|i: int|
            0 <= i < s.len() && !is_js_doc(#[trigger] s[i]) ==> taken(
                s,
                CommentFilter::NoJsDoc,
                by,
            ).contains(moved_comment(s[i], by)),
    decreases s.len(),
{
    if s.len() > 0 {
        let rest = s.drop_last();
        law_js_docs_and_the_rest(rest, by);
        assert forall|filter: CommentFilter, i: int|
            (filter == CommentFilter::OnlyJsDoc || filter == CommentFilter::NoJsDoc) && 0 <= i
                < s.len() && #[trigger] is_kept(filter, s[i]) implies taken(
            s,
            filter,
            by,
        ).contains(moved_comment(s[i], by)) by {
            if i == s.len() - 1 {
                assert(taken(s, filter, by).last() == moved_comment(s[i], by));
            } else {
                assert(s[i] == rest[i]);
                let k = taken(rest, filter, by).index_of(moved_comment(rest[i], by));
                assert(taken(s, filter, by)[k] == moved_comment(s[i], by));
            }
        }
        assert forall|i: int| 0 <= i < s.len() && is_js_doc(#[trigger] s[i]) implies taken(
            s,
            CommentFilter::OnlyJsDoc,
            by,
        ).contains(moved_comment(s[i], by)) by {
            assert(is_kept(CommentFilter::OnlyJsDoc, s[i]));
        }
        assert forall|i: int| 0 <= i < s.len() && !is_js_doc(#[trigger] s[i]) implies taken(
            s,
            CommentFilter::NoJsDoc,
            by,
        ).contains(moved_comment(s[i], by)) by {
            assert(is_kept(CommentFilter::NoJsDoc, s[i]));
        }
    }
}

}
