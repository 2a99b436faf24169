use vstd::prelude::*;

use crate::text::{chars_of, find, find_from, range_equals, same_chars, trim, trim_bounds};

verus! {

/// The tags, as the set of tag names they stand for.
pub open spec fn tag_set(v: Seq<Vec<char>>) -> Set<Seq<char>> {
    Set::new(|t: Seq<char>| exists|i: int| 0 <= i < v.len() && v[i]@ == t)
}

/// No tag name is held twice.
pub open spec fn distinct(v: Seq<Vec<char>>) -> bool {
    forall|i: int, j: int| 0 <= i < v.len() && 0 <= j < v.len() && i != j ==> v[i]@ != v[j]@
}

/// What a configuration of tags stands for.
pub ghost struct TagsView {
    pub includes: Set<Seq<char>>,
    pub excludes: Set<Seq<char>>,
    pub end_tag: Seq<char>,
    pub tag_prefix: Seq<char>,
}

/// Which tags open a kept region, which open a dropped one, which closes a region, and the
/// prefix that introduces a tag within a line.
#[derive(Debug)]
pub struct Tags {
    includes: Vec<Vec<char>>,
    excludes: Vec<Vec<char>>,
    end_tag: Vec<char>,
    tag_prefix: Vec<char>,
}

impl View for Tags {
    type V = TagsView;

    closed spec fn view(&self) -> TagsView {
        TagsView {
            includes: tag_set(self.includes@),
            excludes: tag_set(self.excludes@),
            end_tag: self.end_tag@,
            tag_prefix: self.tag_prefix@,
        }
    }
}

/// What a line is, for the tags of a configuration.
#[derive(Copy, Clone, Debug, PartialEq, Eq, Structural)]
pub enum TagType {
    Include,
    Exclude,
    End,
    Content,
}

/// The classification of a line: the text after the first occurrence of the prefix,
/// trimmed, names the end tag, an included tag or an excluded tag, checked in that order.
pub open spec fn kind_of(tv: TagsView, line: Seq<char>) -> TagType {
    match find_from(line, tv.tag_prefix, 0) {
        Some(i) => {
            let t = trim(line.subrange(i + tv.tag_prefix.len(), line.len() as int));
            if t == tv.end_tag {
                TagType::End
            } else if tv.includes.contains(t) {
                TagType::Include
            } else if tv.excludes.contains(t) {
                TagType::Exclude
            } else {
                TagType::Content
            }
        },
        None => TagType::Content,
    }
}

/// Whether `v` holds `t[lo..hi]`.
fn holds_range(v: &Vec<Vec<char>>, t: &Vec<char>, lo: usize, hi: usize) -> (r: bool)
    requires
        lo <= hi <= t@.len(),
    ensures
        r == tag_set(v@).contains(t@.subrange(lo as int, hi as int)),
{
    let ghost w = t@.subrange(lo as int, hi as int);
    let mut i: usize = 0;
    while i < v.len()
        invariant
            lo <= hi <= t@.len(),
            i <= v@.len(),
            w == t@.subrange(lo as int, hi as int),
            forall|k: int| 0 <= k < i ==> v@[k]@ != w,
        decreases v@.len() - i,
    {
        if range_equals(t, lo, hi, &v[i]) {
            assert(tag_set(v@).contains(w) && v@[i as int]@ == w);
            return true;
        }
        i = i + 1;
    }
    false
}

/// The position in `v` of the tag named `t`.
fn position(v: &Vec<Vec<char>>, t: &Vec<char>) -> (r: Option<usize>)
    ensures
        match r {
            Some(i) => i < v@.len() && v@[i as int]@ == t@,
            None => !tag_set(v@).contains(t@),
        },
{
    let mut i: usize = 0;
    while i < v.len()
        invariant
            i <= v@.len(),
            forall|k: int| 0 <= k < i ==> v@[k]@ != t@,
        decreases v@.len() - i,
    {
        if same_chars(&v[i], t) {
            return Some(i);
        }
        i = i + 1;
    }
    None
}

impl TagType {
    /// The classification of a line of characters.
    pub fn classify(tags: &Tags, line: &Vec<char>) -> (r: TagType)
        ensures
            r == kind_of(tags@, line@),
    {
        match find(line, &tags.tag_prefix) {
            Some(i) => {
                let n = line.len();
                let plen = tags.tag_prefix.len();
                assert(i + plen <= n);
                let (a, b) = trim_bounds(line, i + plen);
                if range_equals(line, a, b, &tags.end_tag) {
                    TagType::End
                } else if holds_range(&tags.includes, line, a, b) {
                    TagType::Include
                } else if holds_range(&tags.excludes, line, a, b) {
                    TagType::Exclude
                } else {
                    TagType::Content
                }
            },
            None => TagType::Content,
        }
    }

    /// The classification of a line of text.
    pub fn from(tags: &Tags, line: &str) -> (r: TagType)
        ensures
            r == kind_of(tags@, line@),
    {
        TagType::classify(tags, &chars_of(line))
    }
}

/// The tag names in `names`.
pub open spec fn name_set(names: Seq<&str>) -> Set<Seq<char>> {
    Set::new(|t: Seq<char>| exists|i: int| 0 <= i < names.len() && names[i]@ == t)
}

/// Adds each tag of `names` to `v`.
fn insert_all(v: &mut Vec<Vec<char>>, names: &[&str])
    requires
        distinct(old(v)@),
    ensures
        distinct(final(v)@),
        tag_set(final(v)@) == tag_set(old(v)@).union(name_set(names@)),
{
    let mut i: usize = 0;
    while i < names.len()
        invariant
            i <= names@.len(),
            distinct(v@),
            tag_set(v@) == tag_set(old(v)@).union(name_set(names@.subrange(0, i as int))),
        decreases names@.len() - i,
    {
        let ghost before = v@;
        let ghost seen = names@.subrange(0, i as int);
        let ghost next = names@.subrange(0, i + 1);
        insert_tag(v, chars_of(names[i]));
        assert forall|x: Seq<char>| #[trigger]
            name_set(next).contains(x) <==> name_set(seen).insert(names@[i as int]@).contains(x) by {
            if name_set(next).contains(x) {
                let j = choose|j: int| 0 <= j < next.len() && next[j]@ == x;
                if j < i {
                    assert(seen[j]@ == x);
                }
            }
            if name_set(seen).contains(x) {
                let j = choose|j: int| 0 <= j < seen.len() && seen[j]@ == x;
                assert(next[j]@ == x);
            }
            if x == names@[i as int]@ {
                assert(next[i as int]@ == x);
            }
        }
        assert(name_set(next) =~= name_set(seen).insert(names@[i as int]@));
        assert(tag_set(v@) =~= tag_set(old(v)@).union(name_set(next)));
        i = i + 1;
    }
    assert(names@.subrange(0, i as int) =~= names@);
}

/// Adds the tag `t` to `v`, unless it is there already.
fn insert_tag(v: &mut Vec<Vec<char>>, t: Vec<char>)
    requires
        distinct(old(v)@),
    ensures
        distinct(final(v)@),
        tag_set(final(v)@) == tag_set(old(v)@).insert(t@),
{
    match position(v, &t) {
        Some(i) => {
            assert(tag_set(v@).contains(v@[i as int]@));
            assert(tag_set(v@) =~= tag_set(v@).insert(t@));
        },
        None => {
            let ghost before = v@;
            let ghost tv = t@;
            v.push(t);
            assert forall|x: Seq<char>| #[trigger]
                tag_set(v@).contains(x) <==> tag_set(before).insert(tv).contains(x) by {
                if tag_set(v@).contains(x) {
                    let i = choose|i: int| 0 <= i < v@.len() && v@[i]@ == x;
                    if i < before.len() {
                        assert(before[i]@ == x);
                    }
                }
                if tag_set(before).contains(x) {
                    let i = choose|i: int| 0 <= i < before.len() && before[i]@ == x;
                    assert(v@[i]@ == x);
                }
                if x == tv {
                    assert(v@[before.len() as int]@ == x);
                }
            }
            assert(tag_set(v@) =~= tag_set(before).insert(tv));
        },
    }
}

/// Takes the tag `t` out of `v`.
fn remove_tag(v: &mut Vec<Vec<char>>, t: &Vec<char>)
    requires
        distinct(old(v)@),
    ensures
        distinct(final(v)@),
        tag_set(final(v)@) == tag_set(old(v)@).remove(t@),
{
    match position(v, t) {
        Some(i) => {
            let ghost before = v@;
            v.remove(i);
            assert forall|j: int| 0 <= j < v@.len() implies v@[j] == before[if j < i {
                j
            } else {
                j + 1
            }] by {}
            assert forall|x: Seq<char>| #[trigger]
                tag_set(v@).contains(x) <==> tag_set(before).remove(t@).contains(x) by {
                if tag_set(v@).contains(x) {
                    let j = choose|j: int| 0 <= j < v@.len() && v@[j]@ == x;
                    let k = if j < i {
                        j
                    } else {
                        j + 1
                    };
                    assert(before[k]@ == x && k != i);
                }
                if tag_set(before).remove(t@).contains(x) {
                    let j = choose|j: int| 0 <= j < before.len() && before[j]@ == x;
                    assert(j != i);
                    if j < i {
                        assert(v@[j]@ == x);
                    } else {
                        assert(v@[j - 1]@ == x);
                    }
                }
            }
            assert(tag_set(v@) =~= tag_set(before).remove(t@));
        },
        None => {
            assert(tag_set(v@) =~= tag_set(v@).remove(t@));
        },
    }
}

impl Tags {
    /// Neither set of tags holds a name twice.
    pub closed spec fn wf(&self) -> bool {
        distinct(self.includes@) && distinct(self.excludes@)
    }

    /// No tags, and an empty prefix and end tag.
    pub fn new() -> (r: Tags)
        ensures
            r.wf(),
            r@.includes == Set::<Seq<char>>::empty(),
            r@.excludes == Set::<Seq<char>>::empty(),
            r@.end_tag == Seq::<char>::empty(),
            r@.tag_prefix == Seq::<char>::empty(),
    {
        let r = Tags {
            includes: Vec::new(),
            excludes: Vec::new(),
            end_tag: Vec::new(),
            tag_prefix: Vec::new(),
        };
        assert(r@.includes =~= Set::<Seq<char>>::empty());
        assert(r@.excludes =~= Set::<Seq<char>>::empty());
        r
    }

    /// The same tags, introduced by `tag_prefix`.
    pub fn tag_prefix(self, tag_prefix: &str) -> (r: Tags)
        requires
            self.wf(),
        ensures
            r.wf(),
            r@ == (TagsView { tag_prefix: tag_prefix@, ..self@ }),
    {
        Tags { tag_prefix: chars_of(tag_prefix), ..self }
    }

    /// The same tags, with `end_tag` closing a region.
    pub fn end_tag(self, end_tag: &str) -> (r: Tags)
        requires
            self.wf(),
        ensures
            r.wf(),
            r@ == (TagsView { end_tag: end_tag@, ..self@ }),
    {
        Tags { end_tag: chars_of(end_tag), ..self }
    }

    /// The same tags, with `name` opening a kept region.
    pub fn add_include(self, name: &str) -> (r: Tags)
        requires
            self.wf(),
        ensures
            r.wf(),
            r@ == (TagsView { includes: self@.includes.insert(name@), ..self@ }),
    {
        let mut r = self;
        insert_tag(&mut r.includes, chars_of(name));
        r
    }

    /// The same tags, with each of `names` opening a kept region.
    pub fn include_all(self, names: &[&str]) -> (r: Tags)
        requires
            self.wf(),
        ensures
            r.wf(),
            r@ == (TagsView { includes: self@.includes.union(name_set(names@)), ..self@ }),
    {
        let mut r = self;
        insert_all(&mut r.includes, names);
        r
    }

    /// The same tags, with none of them named `name` opening a kept region.
    pub fn remove_include(self, name: &str) -> (r: Tags)
        requires
            self.wf(),
        ensures
            r.wf(),
            r@ == (TagsView { includes: self@.includes.remove(name@), ..self@ }),
    {
        let mut r = self;
        remove_tag(&mut r.includes, &chars_of(name));
        r
    }

    /// The same tags, with `name` opening a dropped region.
    pub fn add_exclude(self, name: &str) -> (r: Tags)
        requires
            self.wf(),
        ensures
            r.wf(),
            r@ == (TagsView { excludes: self@.excludes.insert(name@), ..self@ }),
    {
        let mut r = self;
        insert_tag(&mut r.excludes, chars_of(name));
        r
    }

    /// The same tags, with each of `names` opening a dropped region.
    pub fn exclude_all(self, names: &[&str]) -> (r: Tags)
        requires
            self.wf(),
        ensures
            r.wf(),
            r@ == (TagsView { excludes: self@.excludes.union(name_set(names@)), ..self@ }),
    {
        let mut r = self;
        insert_all(&mut r.excludes, names);
        r
    }

    /// The same tags, with none of them named `name` opening a dropped region.
    pub fn remove_exclude(self, name: &str) -> (r: Tags)
        requires
            self.wf(),
        ensures
            r.wf(),
            r@ == (TagsView { excludes: self@.excludes.remove(name@), ..self@ }),
    {
        let mut r = self;
        remove_tag(&mut r.excludes, &chars_of(name));
        r
    }
}

} // verus!
