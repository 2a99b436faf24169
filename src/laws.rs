use vstd::prelude::*;

use crate::engine::{
    lemma_error_stays, package_result, scan, suppressed, terminated, Pass, TagError,
};
use crate::tags::{kind_of, TagType, Tags, TagsView};
use crate::text::{
    ends_with_nl, joined, lemma_next_nl_bounds, line_text, lines_from, lines_of, next_nl,
};

verus! {

/// Regions opened minus regions closed among the first `n` lines.
pub open spec fn depth(tv: TagsView, ls: Seq<Seq<char>>, n: nat) -> int
    decreases n,
{
    if n == 0 {
        0
    } else {
        let d = depth(tv, ls, (n - 1) as nat);
        let k = kind_of(tv, ls[n - 1]);
        if k == TagType::Include || k == TagType::Exclude {
            d + 1
        } else if k == TagType::End {
            d - 1
        } else {
            d
        }
    }
}

/// No stretch of the first `n` lines, from the start, closes more regions than it opens.
pub open spec fn never_over_closed(tv: TagsView, ls: Seq<Seq<char>>, n: nat) -> bool {
    forall|i: nat| i <= n ==> #[trigger] depth(tv, ls, i) >= 0
}

/// The regions around the line after the first `n`, outermost first: `true` for one that
/// keeps its content, `false` for one that drops it.
pub open spec fn regions(tv: TagsView, ls: Seq<Seq<char>>, n: nat) -> Seq<bool>
    decreases n,
{
    if n == 0 {
        Seq::empty()
    } else {
        let r = regions(tv, ls, (n - 1) as nat);
        let k = kind_of(tv, ls[n - 1]);
        if k == TagType::Include {
            r.push(true)
        } else if k == TagType::Exclude {
            r.push(false)
        } else if k == TagType::End {
            r.drop_last()
        } else {
            r
        }
    }
}

/// No region in `r` drops its content.
pub open spec fn all_kept(r: Seq<bool>) -> bool {
    forall|i: int| 0 <= i < r.len() ==> r[i]
}

/// The content lines among the first `n` around which no region drops its content.
pub open spec fn kept_lines(tv: TagsView, ls: Seq<Seq<char>>, n: nat) -> Seq<Seq<char>>
    decreases n,
{
    if n == 0 {
        Seq::empty()
    } else {
        let prev = kept_lines(tv, ls, (n - 1) as nat);
        if kind_of(tv, ls[n - 1]) == TagType::Content && all_kept(
            regions(tv, ls, (n - 1) as nat),
        ) {
            prev.push(ls[n - 1])
        } else {
            prev
        }
    }
}

/// The two stacks of `p` stand for the nesting `r`: the primary stack, then the shadow
/// stack; every region below the top of the primary keeps its content; the shadow stack
/// is used only inside a dropped region.
pub open spec fn models(p: Pass, r: Seq<bool>) -> bool {
    &&& p.primary + p.shadow == r
    &&& forall|i: int| 0 <= i < p.primary.len() - 1 ==> p.primary[i]
    &&& p.shadow.len() > 0 ==> suppressed(p)
}

proof fn lemma_suppressed_iff(p: Pass, r: Seq<bool>)
    requires
        models(p, r),
    ensures
        suppressed(p) <==> !all_kept(r),
        p.primary.len() == 0 <==> r.len() == 0,
{
    if p.primary.len() == 0 {
        assert(r =~= Seq::<bool>::empty());
    } else if p.primary.last() {
        assert(r =~= p.primary);
    } else {
        assert(r[p.primary.len() - 1] == p.primary.last());
    }
}

proof fn lemma_scan_models(tv: TagsView, ls: Seq<Seq<char>>, n: nat)
    requires
        n <= ls.len(),
        never_over_closed(tv, ls, n),
    ensures
        scan(tv, ls, n) is Ok,
        models(scan(tv, ls, n)->Ok_0, regions(tv, ls, n)),
        regions(tv, ls, n).len() == depth(tv, ls, n),
        scan(tv, ls, n)->Ok_0.kept == kept_lines(tv, ls, n),
    decreases n,
{
    if n == 0 {
        assert(Seq::<bool>::empty() + Seq::<bool>::empty() =~= Seq::<bool>::empty());
    } else {
        let m = (n - 1) as nat;
        assert forall|i: nat| i <= m implies #[trigger] depth(tv, ls, i) >= 0 by {
            assert(depth(tv, ls, i) >= 0);
        }
        lemma_scan_models(tv, ls, m);
        assert(depth(tv, ls, n) >= 0);
        let p = scan(tv, ls, m)->Ok_0;
        let r = regions(tv, ls, m);
        lemma_suppressed_iff(p, r);
        let k = kind_of(tv, ls[n - 1]);
        let q = scan(tv, ls, n)->Ok_0;
        if k == TagType::Include || k == TagType::Exclude {
            let v = k == TagType::Include;
            if suppressed(p) {
                assert(q.primary + q.shadow =~= r.push(v));
            } else {
                assert(p.shadow.len() == 0);
                assert(q.primary + q.shadow =~= r.push(v));
            }
        } else if k == TagType::End {
            if p.shadow.len() > 0 {
                assert(q.primary + q.shadow =~= r.drop_last());
            } else {
                assert(p.primary =~= r);
                assert(q.primary + q.shadow =~= r.drop_last());
            }
        }
    }
}

proof fn lemma_kept_are_content(tv: TagsView, ls: Seq<Seq<char>>, n: nat)
    ensures
        forall|j: int|
            0 <= j < kept_lines(tv, ls, n).len() ==> kind_of(tv, #[trigger] kept_lines(
                tv,
                ls,
                n,
            )[j]) == TagType::Content,
    decreases n,
{
    if n > 0 {
        lemma_kept_are_content(tv, ls, (n - 1) as nat);
    }
}

/// A document whose every region is closed packages without error; one that ends with a
/// region still open, and never closes more regions than it has opened, fails on its last
/// line.
pub proof fn law_balance(tags: Tags, text: Seq<char>)
    requires
        never_over_closed(tags@, lines_of(text), lines_of(text).len()),
    ensures
        depth(tags@, lines_of(text), lines_of(text).len()) == 0 ==> package_result(
            tags@,
            text,
        ) is Ok,
        depth(tags@, lines_of(text), lines_of(text).len()) > 0 ==> package_result(tags@, text)
            == Err::<Seq<char>, TagError>(TagError::ExpectedEndTag(lines_of(text).len() as usize)),
{
    let ls = lines_of(text);
    lemma_scan_models(tags@, ls, ls.len());
    lemma_suppressed_iff(scan(tags@, ls, ls.len())->Ok_0, regions(tags@, ls, ls.len()));
}

/// An end tag on line `j` that closes more regions than were opened before it makes the
/// pass fail on that line, whatever follows.
pub proof fn law_unmatched_close(tags: Tags, text: Seq<char>, j: nat)
    requires
        1 <= j <= lines_of(text).len(),
        depth(tags@, lines_of(text), j) < 0,
        never_over_closed(tags@, lines_of(text), (j - 1) as nat),
    ensures
        package_result(tags@, text) == Err::<Seq<char>, TagError>(
            TagError::UnexpectedEndTag(j as usize),
        ),
{
    let ls = lines_of(text);
    let m = (j - 1) as nat;
    lemma_scan_models(tags@, ls, m);
    assert(depth(tags@, ls, m) >= 0);
    lemma_suppressed_iff(scan(tags@, ls, m)->Ok_0, regions(tags@, ls, m));
    lemma_error_stays(tags@, ls, j, ls.len());
}

/// A document whose every region is closed packages to its content lines around which no
/// region drops its content, in order: a dropped region drops all it holds, regions nested in
/// it too, and a kept region loses only what its dropped sub-regions hold. No tag line that
/// opens or closes a region is among them.
pub proof fn law_kept_content(tags: Tags, text: Seq<char>)
    requires
        never_over_closed(tags@, lines_of(text), lines_of(text).len()),
        depth(tags@, lines_of(text), lines_of(text).len()) == 0,
    ensures
        package_result(tags@, text) == Ok::<Seq<char>, TagError>(
            terminated(
                joined(kept_lines(tags@, lines_of(text), lines_of(text).len())),
                ends_with_nl(text),
            ),
        ),
        forall|j: int|
            0 <= j < kept_lines(tags@, lines_of(text), lines_of(text).len()).len() ==> kind_of(
                tags@,
                #[trigger] kept_lines(tags@, lines_of(text), lines_of(text).len())[j],
            ) == TagType::Content,
{
    let ls = lines_of(text);
    lemma_scan_models(tags@, ls, ls.len());
    lemma_suppressed_iff(scan(tags@, ls, ls.len())->Ok_0, regions(tags@, ls, ls.len()));
    lemma_kept_are_content(tags@, ls, ls.len());
}

/// `s` holds no line feed.
pub open spec fn no_nl(s: Seq<char>) -> bool {
    forall|k: int| 0 <= k < s.len() ==> s[k] != '\n'
}

/// The last two or more lines kept by a pass over `text` end with an empty one.
pub open spec fn ends_in_blank_kept_line(tv: TagsView, text: Seq<char>) -> bool {
    let ls = lines_of(text);
    match scan(tv, ls, ls.len()) {
        Ok(p) => p.kept.len() >= 2 && p.kept.last().len() == 0,
        Err(_) => false,
    }
}

proof fn lemma_lines_no_nl(s: Seq<char>, i: int)
    requires
        0 <= i,
    ensures
        forall|k: int| 0 <= k < lines_from(s, i).len() ==> no_nl(#[trigger] lines_from(s, i)[k]),
    decreases s.len() + 1 - i,
{
    if i < s.len() {
        let j = next_nl(s, i);
        lemma_next_nl_bounds(s, i);
        lemma_lines_no_nl(s, j + 1);
        let line = line_text(s, i, j);
        assert(no_nl(line));
        let rest = lines_from(s, j + 1);
        assert forall|k: int| 0 <= k < lines_from(s, i).len() implies no_nl(
            #[trigger] lines_from(s, i)[k],
        ) by {
            if k > 0 {
                assert(lines_from(s, i)[k] == rest[k - 1]);
            }
        }
    }
}

proof fn lemma_kept_no_nl(tv: TagsView, ls: Seq<Seq<char>>, n: nat)
    requires
        n <= ls.len(),
        forall|k: int| 0 <= k < ls.len() ==> no_nl(#[trigger] ls[k]),
        scan(tv, ls, n) is Ok,
    ensures
        forall|k: int|
            0 <= k < scan(tv, ls, n)->Ok_0.kept.len() ==> no_nl(
                #[trigger] scan(tv, ls, n)->Ok_0.kept[k],
            ),
    decreases n,
{
    if n > 0 {
        lemma_kept_no_nl(tv, ls, (n - 1) as nat);
        assert(no_nl(ls[n - 1]));
    }
}

proof fn lemma_joined_end(ls: Seq<Seq<char>>)
    requires
        forall|k: int| 0 <= k < ls.len() ==> no_nl(#[trigger] ls[k]),
    ensures
        ends_with_nl(joined(ls)) <==> (ls.len() >= 2 && ls.last().len() == 0),
{
    if ls.len() == 1 {
        assert(no_nl(ls[0]));
    } else if ls.len() >= 2 {
        assert(no_nl(ls.last()));
        let j = joined(ls);
        if ls.last().len() > 0 {
            assert(j.last() == ls.last().last());
        }
    }
}

/// Packaging keeps a final line feed exactly where the document has one, unless what is
/// kept ends with an empty line after another kept line and the document has no final line
/// feed.
pub proof fn law_terminator(tags: Tags, text: Seq<char>)
    requires
        ends_with_nl(text) || !ends_in_blank_kept_line(tags@, text),
    ensures
        package_result(tags@, text) is Ok ==> ends_with_nl(package_result(tags@, text)->Ok_0)
            == ends_with_nl(text),
{
    let ls = lines_of(text);
    if package_result(tags@, text) is Ok {
        lemma_lines_no_nl(text, 0);
        lemma_kept_no_nl(tags@, ls, ls.len());
        lemma_joined_end(scan(tags@, ls, ls.len())->Ok_0.kept);
    }
}

proof fn lemma_scan_all_content(tv: TagsView, ls: Seq<Seq<char>>, n: nat)
    requires
        n <= ls.len(),
        forall|k: int| 0 <= k < ls.len() ==> kind_of(tv, #[trigger] ls[k]) == TagType::Content,
    ensures
        scan(tv, ls, n) == Ok::<Pass, TagError>(
            Pass { primary: Seq::empty(), shadow: Seq::empty(), kept: ls.subrange(0, n as int) },
        ),
    decreases n,
{
    if n > 0 {
        lemma_scan_all_content(tv, ls, (n - 1) as nat);
        assert(kind_of(tv, ls[n - 1]) == TagType::Content);
        assert(ls.subrange(0, n - 1).push(ls[n - 1]) =~= ls.subrange(0, n as int));
    } else {
        assert(ls.subrange(0, 0) =~= Seq::<Seq<char>>::empty());
    }
}

proof fn lemma_joined_cons(a: Seq<char>, rest: Seq<Seq<char>>)
    ensures
        joined(seq![a] + rest) == if rest.len() == 0 {
            a
        } else {
            a + seq!['\n'] + joined(rest)
        },
    decreases rest.len(),
{
    let l = seq![a] + rest;
    if rest.len() == 0 {
        assert(l =~= seq![a]);
    } else {
        assert(l.drop_last() =~= seq![a] + rest.drop_last());
        lemma_joined_cons(a, rest.drop_last());
        if rest.len() == 1 {
            assert(seq![a] + rest.drop_last() =~= seq![a]);
        } else {
            assert(joined(l) =~= a + seq!['\n'] + joined(rest));
        }
    }
}

proof fn lemma_rejoin(s: Seq<char>, i: int)
    requires
        0 <= i < s.len(),
        forall|k: int| 0 <= k < s.len() ==> s[k] != '\r',
    ensures
        terminated(joined(lines_from(s, i)), ends_with_nl(s)) == s.subrange(i, s.len() as int),
    decreases s.len() - i,
{
    let j = next_nl(s, i);
    lemma_next_nl_bounds(s, i);
    let line = s.subrange(i, j);
    assert(line_text(s, i, j) == line);
    let rest = lines_from(s, j + 1);
    assert(lines_from(s, i) == seq![line] + rest);
    lemma_joined_cons(line, rest);
    if j == s.len() {
        assert(s[s.len() - 1] != '\n');
        assert(line =~= s.subrange(i, s.len() as int));
    } else if j + 1 == s.len() {
        assert(line.push('\n') =~= s.subrange(i, s.len() as int));
    } else {
        lemma_rejoin(s, j + 1);
        assert(rest.len() > 0);
        let jr = joined(rest);
        assert(terminated(line + seq!['\n'] + jr, ends_with_nl(s)) =~= line + seq!['\n']
            + terminated(jr, ends_with_nl(s)));
        assert(line + seq!['\n'] + s.subrange(j + 1, s.len() as int) =~= s.subrange(
            i,
            s.len() as int,
        ));
    }
}

/// With no tags to keep or drop, a document without end tags packages to its lines
/// rejoined, and to itself where it holds no carriage return.
pub proof fn law_no_op(tags: Tags, text: Seq<char>)
    requires
        tags@.includes == Set::<Seq<char>>::empty(),
        tags@.excludes == Set::<Seq<char>>::empty(),
        forall|k: int|
            0 <= k < lines_of(text).len() ==> kind_of(tags@, #[trigger] lines_of(text)[k])
                != TagType::End,
    ensures
        package_result(tags@, text) == Ok::<Seq<char>, TagError>(
            terminated(joined(lines_of(text)), ends_with_nl(text)),
        ),
        (forall|k: int| 0 <= k < text.len() ==> text[k] != '\r') ==> package_result(tags@, text)
            == Ok::<Seq<char>, TagError>(text),
{
    let ls = lines_of(text);
    assert forall|k: int| 0 <= k < ls.len() implies kind_of(tags@, #[trigger] ls[k])
        == TagType::Content by {}
    lemma_scan_all_content(tags@, ls, ls.len());
    assert(ls.subrange(0, ls.len() as int) =~= ls);
    if forall|k: int| 0 <= k < text.len() ==> text[k] != '\r' {
        if text.len() > 0 {
            lemma_rejoin(text, 0);
            assert(text.subrange(0, text.len() as int) =~= text);
        } else {
            assert(ls =~= Seq::<Seq<char>>::empty());
            assert(terminated(joined(ls), ends_with_nl(text)) =~= text);
        }
    }
}

} // verus!
