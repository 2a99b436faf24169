use vstd::prelude::*;

use crate::tags::{kind_of, TagType, Tags, TagsView};
use crate::text::{
    chars_of, ends_with_nl, joined, lines_of, push_all, push_char, split_lines, views,
};

verus! {

/// Why a document could not be packaged; each carries a 1-based line number.
#[derive(Copy, Clone, Debug, PartialEq, Eq, Structural)]
pub enum TagError {
    /// An end tag with no open region to close.
    UnexpectedEndTag(usize),
    /// The document ended with a region still open.
    ExpectedEndTag(usize),
}

/// The state of a pass: the primary stack, whose top decides visibility, the shadow stack of
/// regions opened inside a suppressed region, and the lines kept so far.
pub ghost struct Pass {
    pub primary: Seq<bool>,
    pub shadow: Seq<bool>,
    pub kept: Seq<Seq<char>>,
}

/// The state before the first line.
pub open spec fn start() -> Pass {
    Pass { primary: Seq::empty(), shadow: Seq::empty(), kept: Seq::empty() }
}

/// The innermost region on the primary stack drops its content.
pub open spec fn suppressed(p: Pass) -> bool {
    p.primary.len() > 0 && !p.primary.last()
}

/// A region opens: onto the shadow stack inside a suppressed region, else onto the primary.
pub open spec fn open_region(p: Pass, visible: bool) -> Pass {
    if suppressed(p) {
        Pass { shadow: p.shadow.push(visible), ..p }
    } else {
        Pass { primary: p.primary.push(visible), ..p }
    }
}

/// The effect of one line that raises no error.
pub open spec fn step(p: Pass, k: TagType, line: Seq<char>) -> Pass {
    match k {
        TagType::Include => open_region(p, true),
        TagType::Exclude => open_region(p, false),
        TagType::End => if p.shadow.len() > 0 {
            Pass { shadow: p.shadow.drop_last(), ..p }
        } else {
            Pass { primary: p.primary.drop_last(), ..p }
        },
        TagType::Content => if suppressed(p) {
            p
        } else {
            Pass { kept: p.kept.push(line), ..p }
        },
    }
}

/// The state after the first `n` lines, or the error that stops the pass on one of them.
pub open spec fn scan(tv: TagsView, ls: Seq<Seq<char>>, n: nat) -> Result<Pass, TagError>
    decreases n,
{
    if n == 0 {
        Ok(start())
    } else {
        match scan(tv, ls, (n - 1) as nat) {
            Err(e) => Err(e),
            Ok(p) => {
                let k = kind_of(tv, ls[n - 1]);
                if k == TagType::End && p.primary.len() == 0 && p.shadow.len() == 0 {
                    Err(TagError::UnexpectedEndTag(n as usize))
                } else {
                    Ok(step(p, k, ls[n - 1]))
                }
            },
        }
    }
}

/// Once a pass meets an error, later lines do not change it.
pub proof fn lemma_error_stays(tv: TagsView, ls: Seq<Seq<char>>, n: nat, m: nat)
    requires
        n <= m,
        scan(tv, ls, n) is Err,
    ensures
        scan(tv, ls, m) == scan(tv, ls, n),
    decreases m - n,
{
    if n < m {
        lemma_error_stays(tv, ls, n, (m - 1) as nat);
    }
}

/// `s`, with a line feed after it when `nl` holds.
pub open spec fn terminated(s: Seq<char>, nl: bool) -> Seq<char> {
    if nl {
        s.push('\n')
    } else {
        s
    }
}

/// The packaged text, or the error that a pass over `text` meets.
pub open spec fn package_result(tv: TagsView, text: Seq<char>) -> Result<Seq<char>, TagError> {
    let ls = lines_of(text);
    match scan(tv, ls, ls.len()) {
        Err(e) => Err(e),
        Ok(p) => if p.primary.len() > 0 {
            Err(TagError::ExpectedEndTag(ls.len() as usize))
        } else {
            Ok(terminated(joined(p.kept), ends_with_nl(text)))
        },
    }
}

impl Tags {
    /// Keeps the lines of `content` that stand in no dropped region, without the tag lines.
    pub fn package(&self, content: &str) -> (r: Result<String, TagError>)
        ensures
            match r {
                Ok(s) => package_result(self@, content@) == Ok::<Seq<char>, TagError>(s@),
                Err(e) => package_result(self@, content@) == Err::<Seq<char>, TagError>(e),
            },
    {
        let doc = chars_of(content);
        let lines = split_lines(&doc);
        let ghost ls = lines_of(content@);
        let mut primary: Vec<bool> = Vec::new();
        let mut shadow: Vec<bool> = Vec::new();
        let mut out = String::new();
        let mut any: bool = false;
        let ghost mut kept: Seq<Seq<char>> = Seq::empty();
        let mut k: usize = 0;
        while k < lines.len()
            invariant
                doc@ == content@,
                views(lines@) == ls,
                ls == lines_of(content@),
                k <= ls.len(),
                scan(self@, ls, k as nat) == Ok::<Pass, TagError>(
                    Pass { primary: primary@, shadow: shadow@, kept },
                ),
                out@ == joined(kept),
                any == (kept.len() > 0),
            decreases ls.len() - k,
        {
            let line = &lines[k];
            assert(line@ == ls[k as int]);
            let kind = TagType::classify(self, line);
            let plen = primary.len();
            let hidden = plen > 0 && !primary[plen - 1];
            match kind {
                TagType::Include => {
                    if hidden {
                        shadow.push(true);
                    } else {
                        primary.push(true);
                    }
                },
                TagType::Exclude => {
                    if hidden {
                        shadow.push(false);
                    } else {
                        primary.push(false);
                    }
                },
                TagType::End => {
                    if shadow.len() > 0 {
                        shadow.pop();
                    } else if primary.len() > 0 {
                        primary.pop();
                    } else {
                        proof {
                            lemma_error_stays(self@, ls, (k + 1) as nat, ls.len());
                        }
                        return Err(TagError::UnexpectedEndTag(k + 1));
                    }
                },
                TagType::Content => {
                    if !hidden {
                        let ghost before = kept;
                        if any {
                            push_char(&mut out, '\n');
                        }
                        push_all(&mut out, line);
                        proof {
                            kept = kept.push(line@);
                            assert(kept.drop_last() =~= before);
                        }
                        any = true;
                    }
                },
            }
            k = k + 1;
        }
        if primary.len() > 0 {
            return Err(TagError::ExpectedEndTag(k));
        }
        let n = doc.len();
        if n > 0 && doc[n - 1] == '\n' {
            push_char(&mut out, '\n');
        }
        Ok(out)
    }
}

} // verus!
