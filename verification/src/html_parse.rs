//! The markup scanner and tree builder: a single forward pass over the
//! input characters that produces a forest of nodes, repairing misnested
//! closing tags through one document-wide queue of pending closures.

use vstd::prelude::*;

use crate::dom::{node_view, nodes_view, strs_view, AttrMap, ElementData, Node, NodeType, SNode};
use crate::scan::{
    chars_to_string, cond_check, is_space, lower_of, lowercase, run_len, str_chars, Cond,
};

verus! {

use crate::scan::lemma_run_len;
use crate::scan::lemma_run_extend;

/// The scanner state: the input characters, the cursor, and the
/// document-wide queue of closing tag names seen but not yet reconciled.
pub struct HtmlParser {
    input: Vec<char>,
    pos: usize,
    node_q: Vec<String>,
}

/// The normalized content of the text run that starts at `i` and ends at the
/// next `<` or at the end of input: each whitespace run collapses to exactly
/// one space character, and runs without whitespace are kept verbatim.
pub open spec fn text_norm(s: Seq<char>, i: int) -> Seq<char>
    decreases s.len() - i,
        when 0 <= i <= s.len()
    via text_norm_dec
{
    if i >= s.len() || s[i] == '<' {
        Seq::empty()
    } else if is_space(s[i]) {
        seq![' '].add(text_norm(s, i + run_len(s, i, Cond::Space)))
    } else {
        s.subrange(i, i + run_len(s, i, Cond::TextPart)).add(
            text_norm(s, i + run_len(s, i, Cond::TextPart)),
        )
    }
}

#[via_fn]
proof fn text_norm_dec(s: Seq<char>, i: int) {
    if 0 <= i && i < s.len() && s[i] != '<' {
        lemma_run_len(s, i, Cond::Space);
        lemma_run_len(s, i, Cond::TextPart);
    }
}

/// The content of the attribute value that starts at `i`: after optional
/// whitespace, either the inside of a quoted string, or the longest run of
/// unquoted value characters.
pub open spec fn attr_value_content(s: Seq<char>, i: int) -> Seq<char> {
    let j = i + run_len(s, i, Cond::Space);
    if j < s.len() && (s[j] == '"' || s[j] == '\'') {
        s.subrange(j + 1, j + 1 + run_len(s, j + 1, Cond::NotChar(s[j])))
    } else {
        s.subrange(j, j + run_len(s, j, Cond::AttrValue))
    }
}

/// The position right after the attribute value that starts at `i`; the
/// closing quote, where present, is consumed.
pub open spec fn attr_value_end(s: Seq<char>, i: int) -> int {
    let j = i + run_len(s, i, Cond::Space);
    if j < s.len() && (s[j] == '"' || s[j] == '\'') {
        let e = j + 1 + run_len(s, j + 1, Cond::NotChar(s[j]));
        if e < s.len() {
            e + 1
        } else {
            e
        }
    } else {
        j + run_len(s, j, Cond::AttrValue)
    }
}

/// The attribute map scanned from position `i` up to and including the
/// closing `>`, together with the position right after it. Names are
/// case-folded; a name without `=` gets the empty value; a stray character
/// that can head no attribute is skipped.
pub open spec fn attrs_rec(s: Seq<char>, i: int, m: Map<Seq<char>, Seq<char>>) -> (
    Map<Seq<char>, Seq<char>>,
    int,
)
    decreases s.len() - i,
        when 0 <= i <= s.len()
    via attrs_rec_dec
{
    if i >= s.len() {
        (m, i)
    } else if s[i] == '>' {
        (m, i + 1)
    } else {
        let j = i + run_len(s, i, Cond::Space);
        let nl = run_len(s, j, Cond::AttrName) as int;
        let name = lower_of(s.subrange(j, j + nl));
        let k = j + nl + run_len(s, j + nl, Cond::Space);
        if k < s.len() && s[k] == '=' {
            let v = attr_value_content(s, k + 1);
            let e0 = attr_value_end(s, k + 1);
            let e = e0 + run_len(s, e0, Cond::AttrJunk) + run_len(
                s,
                e0 + run_len(s, e0, Cond::AttrJunk),
                Cond::Space,
            );
            attrs_rec(s, e, m.insert(name, v))
        } else if nl == 0 && k < s.len() && s[k] != '>' {
            attrs_rec(s, k + 1, m)
        } else {
            attrs_rec(s, if k > i {
                k
            } else {
                i + 1
            }, m.insert(name, Seq::empty()))
        }
    }
}

#[via_fn]
proof fn attrs_rec_dec(s: Seq<char>, i: int, m: Map<Seq<char>, Seq<char>>) {
    if 0 <= i && i < s.len() && s[i] != '>' {
        lemma_run_len(s, i, Cond::Space);
        let j = i + run_len(s, i, Cond::Space);
        lemma_run_len(s, j, Cond::AttrName);
        let nl = run_len(s, j, Cond::AttrName) as int;
        lemma_run_len(s, j + nl, Cond::Space);
        let k = j + nl + run_len(s, j + nl, Cond::Space);
        if k < s.len() && s[k] == '=' {
            lemma_run_len(s, k + 1, Cond::Space);
            let j2 = k + 1 + run_len(s, k + 1, Cond::Space);
            if j2 < s.len() && (s[j2] == '"' || s[j2] == '\'') {
                lemma_run_len(s, j2 + 1, Cond::NotChar(s[j2]));
            } else {
                lemma_run_len(s, j2, Cond::AttrValue);
            }
            let e0 = attr_value_end(s, k + 1);
            assert(k + 1 <= e0 <= s.len());
            lemma_run_len(s, e0, Cond::AttrJunk);
            lemma_run_len(s, e0 + run_len(s, e0, Cond::AttrJunk), Cond::Space);
        } else if nl == 0 && k < s.len() && s[k] != '>' {
            assert(run_len(s, i, Cond::Space) == 0 ==> k == i && s[k] == s[i]);
        }
    }
}

/// The main comment loop, from position `i` with content `acc` so far: runs
/// without `<` or `-` accumulate verbatim; a confirmed `-->` ends the comment;
/// a confirmed nested comment open discards the content and skips to the next
/// `>`; every partial false match folds back into the content as the original
/// scanner spells it.
pub open spec fn comment_rec(s: Seq<char>, i: int, acc: Seq<char>) -> (Seq<char>, int)
    decreases s.len() - i,
        when 0 <= i <= s.len()
{
    if i >= s.len() {
        (acc, i)
    } else {
        let r = run_len(s, i, Cond::CommentRun) as int;
        let acc1 = acc.add(s.subrange(i, i + r));
        let j = i + r;
        if j >= s.len() {
            (acc1, j)
        } else if s[j] == '<' {
            if j + 1 < s.len() && s[j + 1] == '!' {
                if j + 2 < s.len() && s[j + 2] == '-' {
                    if j + 3 < s.len() && s[j + 3] == '-' {
                        (Seq::empty(), j + 3 + run_len(s, j + 3, Cond::NotChar('>')))
                    } else {
                        comment_rec(s, j + 3, acc1.push('<').push('!').push('-'))
                    }
                } else if j + 2 < s.len() && s[j + 2] == ' ' {
                    if j + 3 < s.len() && s[j + 3] == '-' {
                        if j + 4 < s.len() && s[j + 4] == '-' {
                            if j + 5 < s.len() && s[j + 5] == '-' {
                                if j + 6 < s.len() && s[j + 6] == '>' {
                                    (Seq::empty(), j + 7)
                                } else {
                                    comment_rec(
                                        s,
                                        j + 6,
                                        acc1.push('<').push('!').push(' ').push('-').push('-'),
                                    )
                                }
                            } else {
                                comment_rec(s, j + 5, acc1.push('<').push('!').push(' ').push('-'))
                            }
                        } else {
                            comment_rec(s, j + 4, acc1.push('<').push('!').push(' '))
                        }
                    } else {
                        comment_rec(s, j + 3, acc1)
                    }
                } else {
                    comment_rec(s, j + 2, acc1.push('<').push('!'))
                }
            } else {
                comment_rec(s, j + 1, acc1.push('<'))
            }
        } else {
            if j + 1 < s.len() && s[j + 1] == '-' {
                if j + 2 < s.len() && s[j + 2] == '>' {
                    (acc1, j + 3)
                } else {
                    comment_rec(s, j + 2, acc1.push('-').push('-'))
                }
            } else {
                comment_rec(s, j + 1, acc1.push('-'))
            }
        }
    }
}

/// The comment construct that starts right after a consumed `<!`: its
/// content and the position right after it. A malformed opening degrades to
/// an empty comment whose construct runs to the next `>`.
pub open spec fn comment_spec(s: Seq<char>, i: int) -> (Seq<char>, int) {
    if !(i < s.len() && s[i] == '-') {
        let e = i + run_len(s, i, Cond::NotChar('>'));
        (Seq::<char>::empty(), if e < s.len() {
            e + 1
        } else {
            e
        })
    } else if !(i + 1 < s.len() && s[i + 1] == '-') {
        let e = i + 1 + run_len(s, i + 1, Cond::NotChar('>'));
        (Seq::<char>::empty(), if e < s.len() {
            e + 1
        } else {
            e
        })
    } else {
        let j = i + 2;
        if j < s.len() && s[j] == '>' {
            (Seq::<char>::empty(), j + 1)
        } else if j < s.len() && s[j] == '-' {
            if j + 1 < s.len() && s[j + 1] == '>' {
                (Seq::<char>::empty(), j + 2)
            } else {
                comment_rec(s, j + 1, seq!['-'])
            }
        } else {
            comment_rec(s, j, Seq::empty())
        }
    }
}

/// The comment loop never moves the cursor backwards nor past the end.
pub proof fn lemma_comment_rec_bounds(s: Seq<char>, i: int, acc: Seq<char>)
    requires
        0 <= i <= s.len(),
    ensures
        i <= comment_rec(s, i, acc).1 <= s.len(),
    decreases s.len() - i,
{
    if i < s.len() {
        let r = run_len(s, i, Cond::CommentRun) as int;
        lemma_run_len(s, i, Cond::CommentRun);
        let j = i + r;
        if j < s.len() && s[j] == '<' && j + 2 < s.len() && s[j + 1] == '!' && s[j + 2] == '-'
            && j + 3 < s.len() && s[j + 3] == '-' {
            lemma_run_len(s, j + 3, Cond::NotChar('>'));
        }
        let acc1 = acc.add(s.subrange(i, i + r));
        if j + 1 <= s.len() {
            lemma_comment_rec_bounds(s, j + 1, acc1.push('<'));
            lemma_comment_rec_bounds(s, j + 1, acc1.push('-'));
        }
        if j + 2 <= s.len() {
            lemma_comment_rec_bounds(s, j + 2, acc1.push('<').push('!'));
            lemma_comment_rec_bounds(s, j + 2, acc1.push('-').push('-'));
        }
        if j + 3 <= s.len() {
            lemma_comment_rec_bounds(s, j + 3, acc1.push('<').push('!').push('-'));
            lemma_comment_rec_bounds(s, j + 3, acc1);
        }
        if j + 4 <= s.len() {
            lemma_comment_rec_bounds(s, j + 4, acc1.push('<').push('!').push(' '));
        }
        if j + 5 <= s.len() {
            lemma_comment_rec_bounds(s, j + 5, acc1.push('<').push('!').push(' ').push('-'));
        }
        if j + 6 <= s.len() {
            lemma_comment_rec_bounds(
                s,
                j + 6,
                acc1.push('<').push('!').push(' ').push('-').push('-'),
            );
        }
    }
}

/// The comment construct never moves the cursor backwards nor past the end.
pub proof fn lemma_comment_spec_bounds(s: Seq<char>, i: int)
    requires
        0 <= i <= s.len(),
    ensures
        i <= comment_spec(s, i).1 <= s.len(),
{
    lemma_run_len(s, i, Cond::NotChar('>'));
    if i < s.len() {
        lemma_run_len(s, i + 1, Cond::NotChar('>'));
        if i + 2 <= s.len() {
            lemma_comment_rec_bounds(s, i + 2, Seq::empty());
        }
        if i + 3 <= s.len() {
            lemma_comment_rec_bounds(s, i + 3, seq!['-']);
        }
    }
}

/// The attribute scanner never moves the cursor backwards nor past the end.
pub proof fn lemma_attrs_rec_bounds(s: Seq<char>, i: int, m: Map<Seq<char>, Seq<char>>)
    requires
        0 <= i <= s.len(),
    ensures
        i <= attrs_rec(s, i, m).1 <= s.len(),
    decreases s.len() - i,
{
    if i < s.len() && s[i] != '>' {
        lemma_run_len(s, i, Cond::Space);
        let j = i + run_len(s, i, Cond::Space);
        lemma_run_len(s, j, Cond::AttrName);
        let nl = run_len(s, j, Cond::AttrName) as int;
        lemma_run_len(s, j + nl, Cond::Space);
        let k = j + nl + run_len(s, j + nl, Cond::Space);
        let name = lower_of(s.subrange(j, j + nl));
        if k < s.len() && s[k] == '=' {
            lemma_run_len(s, k + 1, Cond::Space);
            let j2 = k + 1 + run_len(s, k + 1, Cond::Space);
            if j2 < s.len() && (s[j2] == '"' || s[j2] == '\'') {
                lemma_run_len(s, j2 + 1, Cond::NotChar(s[j2]));
            } else {
                lemma_run_len(s, j2, Cond::AttrValue);
            }
            let e0 = attr_value_end(s, k + 1);
            lemma_run_len(s, e0, Cond::AttrJunk);
            let e1 = e0 + run_len(s, e0, Cond::AttrJunk);
            lemma_run_len(s, e1, Cond::Space);
            let e = e1 + run_len(s, e1, Cond::Space);
            lemma_attrs_rec_bounds(s, e, m.insert(name, attr_value_content(s, k + 1)));
        } else if nl == 0 && k < s.len() && s[k] != '>' {
            lemma_attrs_rec_bounds(s, k + 1, m);
        } else {
            lemma_attrs_rec_bounds(s, if k > i {
                k
            } else {
                i + 1
            }, m.insert(name, Seq::empty()));
        }
    }
}

/// One sibling level of the tree builder, from position `i` with queue `q`
/// and the siblings `acc` already gathered: the siblings of the level, the
/// position where the level ends, and the queue as the level leaves it.
/// A closing tag ends the level and joins the back of the queue; an opening
/// tag gathers its children recursively and is then reconciled against the
/// front of the queue, a mismatch hoisting its children up to this level.
pub open spec fn parse_level(s: Seq<char>, i: int, q: Seq<Seq<char>>, acc: Seq<SNode>) -> (
    Seq<SNode>,
    int,
    Seq<Seq<char>>,
)
    decreases s.len() - i,
        when 0 <= i <= s.len()
    via parse_level_dec
{
    if i >= s.len() {
        (acc, i, q)
    } else {
        let w = run_len(s, i, Cond::Space) as int;
        let j = i + w;
        if j >= s.len() {
            (acc, j, q)
        } else if s[j] != '<' {
            let content = (if w > 0 {
                seq![' ']
            } else {
                Seq::<char>::empty()
            }).add(text_norm(s, j));
            parse_level(
                s,
                j + run_len(s, j, Cond::NotChar('<')),
                q,
                acc.push(SNode::Text { text: content }),
            )
        } else if j + 1 < s.len() && s[j + 1] == '/' {
            let w2 = j + 2 + run_len(s, j + 2, Cond::Space);
            let ne = w2 + run_len(s, w2, Cond::TagName);
            let name = s.subrange(w2, ne);
            let ge = ne + run_len(s, ne, Cond::NotChar('>'));
            (acc, if ge < s.len() {
                ge + 1
            } else {
                ge
            }, q.push(name))
        } else if j + 1 < s.len() && s[j + 1] == '!' {
            let c = comment_spec(s, j + 2);
            parse_level(s, c.1, q, acc.push(SNode::Comment { text: c.0 }))
        } else {
            let ne = j + 1 + run_len(s, j + 1, Cond::TagName);
            let name = s.subrange(j + 1, ne);
            let ar = attrs_rec(s, ne, Map::empty());
            let child = parse_level(s, ar.1, q, Seq::empty());
            let i3 = if child.1 < ar.1 {
                ar.1
            } else if child.1 > s.len() {
                s.len() as int
            } else {
                child.1
            };
            if child.2.len() > 0 && child.2[0] != name {
                parse_level(
                    s,
                    i3,
                    child.2,
                    acc.add(seq![SNode::Elem { name, attrs: ar.0, kids: Seq::empty() }]).add(
                        child.0,
                    ),
                )
            } else {
                parse_level(
                    s,
                    i3,
                    if child.2.len() > 0 {
                        child.2.drop_first()
                    } else {
                        child.2
                    },
                    acc.push(SNode::Elem { name, attrs: ar.0, kids: child.0 }),
                )
            }
        }
    }
}

#[via_fn]
proof fn parse_level_dec(s: Seq<char>, i: int, q: Seq<Seq<char>>, acc: Seq<SNode>) {
    if 0 <= i && i < s.len() {
        lemma_run_len(s, i, Cond::Space);
        let j = i + run_len(s, i, Cond::Space);
        if j < s.len() {
            if s[j] != '<' {
                lemma_run_len(s, j, Cond::NotChar('<'));
                assert(run_len(s, j, Cond::NotChar('<')) >= 1);
            } else if j + 1 < s.len() && s[j + 1] == '/' {
            } else if j + 1 < s.len() && s[j + 1] == '!' {
                lemma_comment_spec_bounds(s, j + 2);
            } else {
                lemma_run_len(s, j + 1, Cond::TagName);
                let ne = j + 1 + run_len(s, j + 1, Cond::TagName);
                lemma_attrs_rec_bounds(s, ne, Map::empty());
            }
        }
    }
}

/// The tree builder never moves the cursor backwards nor past the end.
pub proof fn lemma_parse_level_bounds(s: Seq<char>, i: int, q: Seq<Seq<char>>, acc: Seq<SNode>)
    requires
        0 <= i <= s.len(),
    ensures
        i <= parse_level(s, i, q, acc).1 <= s.len(),
    decreases s.len() - i,
{
    if i < s.len() {
        lemma_run_len(s, i, Cond::Space);
        let w = run_len(s, i, Cond::Space) as int;
        let j = i + w;
        if j < s.len() {
            if s[j] != '<' {
                lemma_run_len(s, j, Cond::NotChar('<'));
                let content = (if w > 0 {
                    seq![' ']
                } else {
                    Seq::<char>::empty()
                }).add(text_norm(s, j));
                lemma_parse_level_bounds(
                    s,
                    j + run_len(s, j, Cond::NotChar('<')),
                    q,
                    acc.push(SNode::Text { text: content }),
                );
            } else if j + 1 < s.len() && s[j + 1] == '/' {
                lemma_run_len(s, j + 2, Cond::Space);
                let w2 = j + 2 + run_len(s, j + 2, Cond::Space);
                lemma_run_len(s, w2, Cond::TagName);
                let ne = w2 + run_len(s, w2, Cond::TagName);
                lemma_run_len(s, ne, Cond::NotChar('>'));
            } else if j + 1 < s.len() && s[j + 1] == '!' {
                lemma_comment_spec_bounds(s, j + 2);
                let c = comment_spec(s, j + 2);
                lemma_parse_level_bounds(s, c.1, q, acc.push(SNode::Comment { text: c.0 }));
            } else {
                lemma_run_len(s, j + 1, Cond::TagName);
                let ne = j + 1 + run_len(s, j + 1, Cond::TagName);
                let name = s.subrange(j + 1, ne);
                lemma_attrs_rec_bounds(s, ne, Map::empty());
                let ar = attrs_rec(s, ne, Map::empty());
                lemma_parse_level_bounds(s, ar.1, q, Seq::empty());
                let child = parse_level(s, ar.1, q, Seq::empty());
                let i3 = if child.1 < ar.1 {
                    ar.1
                } else if child.1 > s.len() {
                    s.len() as int
                } else {
                    child.1
                };
                if child.2.len() > 0 && child.2[0] != name {
                    lemma_parse_level_bounds(
                        s,
                        i3,
                        child.2,
                        acc.add(seq![SNode::Elem { name, attrs: ar.0, kids: Seq::empty() }]).add(
                            child.0,
                        ),
                    );
                } else {
                    lemma_parse_level_bounds(
                        s,
                        i3,
                        if child.2.len() > 0 {
                            child.2.drop_first()
                        } else {
                            child.2
                        },
                        acc.push(SNode::Elem { name, attrs: ar.0, kids: child.0 }),
                    );
                }
            }
        }
    }
}

/// On a non-exhausted input, one level of the tree builder always consumes
/// at least one character.
pub proof fn lemma_parse_level_progress(s: Seq<char>, i: int, q: Seq<Seq<char>>, acc: Seq<SNode>)
    requires
        0 <= i < s.len(),
    ensures
        i < parse_level(s, i, q, acc).1 <= s.len(),
{
    lemma_parse_level_bounds(s, i, q, acc);
    lemma_run_len(s, i, Cond::Space);
    let w = run_len(s, i, Cond::Space) as int;
    let j = i + w;
    if j < s.len() {
        if s[j] != '<' {
            lemma_run_len(s, j, Cond::NotChar('<'));
            let content = (if w > 0 {
                seq![' ']
            } else {
                Seq::<char>::empty()
            }).add(text_norm(s, j));
            lemma_parse_level_bounds(
                s,
                j + run_len(s, j, Cond::NotChar('<')),
                q,
                acc.push(SNode::Text { text: content }),
            );
        } else if j + 1 < s.len() && s[j + 1] == '/' {
            lemma_run_len(s, j + 2, Cond::Space);
            let w2 = j + 2 + run_len(s, j + 2, Cond::Space);
            lemma_run_len(s, w2, Cond::TagName);
            let ne = w2 + run_len(s, w2, Cond::TagName);
            lemma_run_len(s, ne, Cond::NotChar('>'));
        } else if j + 1 < s.len() && s[j + 1] == '!' {
            lemma_comment_spec_bounds(s, j + 2);
            let c = comment_spec(s, j + 2);
            lemma_parse_level_bounds(s, c.1, q, acc.push(SNode::Comment { text: c.0 }));
        } else {
            lemma_run_len(s, j + 1, Cond::TagName);
            let ne = j + 1 + run_len(s, j + 1, Cond::TagName);
            let name = s.subrange(j + 1, ne);
            lemma_attrs_rec_bounds(s, ne, Map::empty());
            let ar = attrs_rec(s, ne, Map::empty());
            lemma_parse_level_bounds(s, ar.1, q, Seq::empty());
            let child = parse_level(s, ar.1, q, Seq::empty());
            let i3 = if child.1 < ar.1 {
                ar.1
            } else if child.1 > s.len() {
                s.len() as int
            } else {
                child.1
            };
            if child.2.len() > 0 && child.2[0] != name {
                lemma_parse_level_bounds(
                    s,
                    i3,
                    child.2,
                    acc.add(seq![SNode::Elem { name, attrs: ar.0, kids: Seq::empty() }]).add(
                        child.0,
                    ),
                );
            } else {
                lemma_parse_level_bounds(
                    s,
                    i3,
                    if child.2.len() > 0 {
                        child.2.drop_first()
                    } else {
                        child.2
                    },
                    acc.push(SNode::Elem { name, attrs: ar.0, kids: child.0 }),
                );
            }
        }
    }
}

/// Scans one sibling level for well-nestedness, without building a tree:
/// whether the level is well-nested (every element closed by its own tag,
/// in order), where it ends, and whether a closing tag ended it and with
/// what name. The positions agree with those of `parse_level`.
pub open spec fn wn_level(s: Seq<char>, i: int) -> (bool, int, bool, Seq<char>)
    decreases s.len() - i,
        when 0 <= i <= s.len()
    via wn_level_dec
{
    if i >= s.len() {
        (true, i, false, Seq::<char>::empty())
    } else {
        let w = run_len(s, i, Cond::Space) as int;
        let j = i + w;
        if j >= s.len() {
            (true, j, false, Seq::<char>::empty())
        } else if s[j] != '<' {
            wn_level(s, j + run_len(s, j, Cond::NotChar('<')))
        } else if j + 1 < s.len() && s[j + 1] == '/' {
            let w2 = j + 2 + run_len(s, j + 2, Cond::Space);
            let ne = w2 + run_len(s, w2, Cond::TagName);
            let name = s.subrange(w2, ne);
            let ge = ne + run_len(s, ne, Cond::NotChar('>'));
            (true, if ge < s.len() {
                ge + 1
            } else {
                ge
            }, true, name)
        } else if j + 1 < s.len() && s[j + 1] == '!' {
            let c = comment_spec(s, j + 2);
            wn_level(s, c.1)
        } else {
            let ne = j + 1 + run_len(s, j + 1, Cond::TagName);
            let name = s.subrange(j + 1, ne);
            let ar = attrs_rec(s, ne, Map::empty());
            let child = wn_level(s, ar.1);
            let i3 = if child.1 < ar.1 {
                ar.1
            } else if child.1 > s.len() {
                s.len() as int
            } else {
                child.1
            };
            if child.0 && child.2 && child.3 == name {
                wn_level(s, i3)
            } else {
                (false, i3, false, Seq::<char>::empty())
            }
        }
    }
}

#[via_fn]
proof fn wn_level_dec(s: Seq<char>, i: int) {
    if 0 <= i && i < s.len() {
        lemma_run_len(s, i, Cond::Space);
        let j = i + run_len(s, i, Cond::Space);
        if j < s.len() {
            if s[j] != '<' {
                lemma_run_len(s, j, Cond::NotChar('<'));
                assert(run_len(s, j, Cond::NotChar('<')) >= 1);
            } else if j + 1 < s.len() && s[j + 1] == '/' {
            } else if j + 1 < s.len() && s[j + 1] == '!' {
                lemma_comment_spec_bounds(s, j + 2);
            } else {
                lemma_run_len(s, j + 1, Cond::TagName);
                let ne = j + 1 + run_len(s, j + 1, Cond::TagName);
                lemma_attrs_rec_bounds(s, ne, Map::empty());
            }
        }
    }
}

/// A whole document is well-nested when its one top-level scan succeeds and
/// no closing tag is left over.
pub open spec fn well_nested(s: Seq<char>) -> bool {
    wn_level(s, 0).0 && !wn_level(s, 0).2
}

/// Law: on a well-nested level entered with an empty queue, the tree
/// builder ends the level exactly where the well-nesting scan ends it, and
/// the queue it leaves holds exactly that level's own closing tag, or
/// nothing where the input ended. So the front entry each element
/// reconciles against is always its own tag, and the hoisting repair of a
/// mismatched closure never fires on a well-nested document.
pub proof fn lemma_well_nested_queue(s: Seq<char>, i: int, acc: Seq<SNode>)
    requires
        0 <= i <= s.len(),
        wn_level(s, i).0,
    ensures
        parse_level(s, i, Seq::<Seq<char>>::empty(), acc).1 == wn_level(s, i).1,
        parse_level(s, i, Seq::<Seq<char>>::empty(), acc).2 == (if wn_level(s, i).2 {
            seq![wn_level(s, i).3]
        } else {
            Seq::<Seq<char>>::empty()
        }),
    decreases s.len() - i,
{
    let q0 = Seq::<Seq<char>>::empty();
    if i < s.len() {
        lemma_run_len(s, i, Cond::Space);
        let w = run_len(s, i, Cond::Space) as int;
        let j = i + w;
        if j < s.len() {
            if s[j] != '<' {
                lemma_run_len(s, j, Cond::NotChar('<'));
                let content = (if w > 0 {
                    seq![' ']
                } else {
                    Seq::<char>::empty()
                }).add(text_norm(s, j));
                lemma_well_nested_queue(
                    s,
                    j + run_len(s, j, Cond::NotChar('<')),
                    acc.push(SNode::Text { text: content }),
                );
            } else if j + 1 < s.len() && s[j + 1] == '/' {
                let w2 = j + 2 + run_len(s, j + 2, Cond::Space);
                let ne = w2 + run_len(s, w2, Cond::TagName);
                let name = s.subrange(w2, ne);
                assert(q0.push(name) =~= seq![name]);
            } else if j + 1 < s.len() && s[j + 1] == '!' {
                lemma_comment_spec_bounds(s, j + 2);
                let c = comment_spec(s, j + 2);
                lemma_well_nested_queue(s, c.1, acc.push(SNode::Comment { text: c.0 }));
            } else {
                lemma_run_len(s, j + 1, Cond::TagName);
                let ne = j + 1 + run_len(s, j + 1, Cond::TagName);
                let name = s.subrange(j + 1, ne);
                lemma_attrs_rec_bounds(s, ne, Map::empty());
                let ar = attrs_rec(s, ne, Map::empty());
                lemma_parse_level_bounds(s, ar.1, q0, Seq::empty());
                lemma_well_nested_queue(s, ar.1, Seq::<SNode>::empty());
                let child = parse_level(s, ar.1, q0, Seq::empty());
                assert(child.2 == seq![name]);
                assert(child.2.len() > 0 && child.2[0] == name);
                assert(seq![name].drop_first() =~= Seq::<Seq<char>>::empty());
                let i3 = if child.1 < ar.1 {
                    ar.1
                } else if child.1 > s.len() {
                    s.len() as int
                } else {
                    child.1
                };
                lemma_well_nested_queue(
                    s,
                    i3,
                    acc.push(SNode::Elem { name, attrs: ar.0, kids: child.0 }),
                );
            }
        }
    }
}

/// Law: parsing a well-nested document leaves the pending-closure queue
/// empty: no closing tag ever waits for repair.
pub proof fn lemma_well_nested_document(s: Seq<char>)
    requires
        well_nested(s),
    ensures
        parse_level(s, 0, Seq::<Seq<char>>::empty(), Seq::<SNode>::empty()).2 == Seq::<
            Seq<char>,
        >::empty(),
{
    lemma_well_nested_queue(s, 0, Seq::<SNode>::empty());
}

/// The head of an element construct and its recursively gathered children:
/// the element's reading, the position after its children's level, and the
/// queue that level leaves. Starts right after the element's `<`.
pub open spec fn parse_elem(s: Seq<char>, i: int, q: Seq<Seq<char>>) -> (
    SNode,
    int,
    Seq<Seq<char>>,
) {
    let ne = i + run_len(s, i, Cond::TagName);
    let name = s.subrange(i, ne);
    let ar = attrs_rec(s, ne, Map::empty());
    let child = parse_level(s, ar.1, q, Seq::empty());
    (SNode::Elem { name, attrs: ar.0, kids: child.0 }, child.1, child.2)
}

/// The whole document: sibling levels gathered until the input is exhausted,
/// a stray closing tag ending one level and opening the next.
pub open spec fn parse_doc(s: Seq<char>, i: int, q: Seq<Seq<char>>) -> Seq<SNode>
    decreases s.len() - i,
        when 0 <= i <= s.len()
    via parse_doc_dec
{
    if i >= s.len() {
        Seq::empty()
    } else {
        let r = parse_level(s, i, q, Seq::empty());
        let e = if r.1 <= i {
            i + 1
        } else if r.1 > s.len() {
            s.len() as int
        } else {
            r.1
        };
        r.0 + parse_doc(s, e, r.2)
    }
}

#[via_fn]
proof fn parse_doc_dec(s: Seq<char>, i: int, q: Seq<Seq<char>>) {
}

/// The reading of the forest that parsing a whole document yields.
pub open spec fn parsed_doc(s: Seq<char>) -> Seq<SNode> {
    parse_doc(s, 0, Seq::empty())
}

/// Law: normalized text content never holds a `<`, never holds two spaces
/// in a row — every whitespace run of the input has collapsed to exactly
/// one space — and where the run starts with a character that is neither
/// whitespace nor `<`, the content starts with that very character,
/// preserved verbatim.
pub proof fn lemma_text_norm_collapsed(s: Seq<char>, i: int)
    requires
        0 <= i <= s.len(),
    ensures
        forall|j: int| 0 <= j < text_norm(s, i).len() ==> text_norm(s, i)[j] != '<',
        forall|j: int|
            0 <= j && j + 1 < text_norm(s, i).len() && #[trigger] text_norm(s, i)[j] == ' '
                ==> text_norm(s, i)[j + 1] != ' ',
        (i < s.len() && s[i] != '<' && !is_space(s[i])) ==> text_norm(s, i).len() > 0 && text_norm(
            s,
            i,
        )[0] == s[i],
    decreases s.len() - i,
{
    if i < s.len() && s[i] != '<' {
        if is_space(s[i]) {
            lemma_run_len(s, i, Cond::Space);
            let w = run_len(s, i, Cond::Space) as int;
            lemma_text_norm_collapsed(s, i + w);
            let rest = text_norm(s, i + w);
            assert(i + w == s.len() || !is_space(s[i + w]));
            assert(rest.len() > 0 ==> rest[0] != ' ');
            assert forall|j: int|
                0 <= j && j + 1 < text_norm(s, i).len() && #[trigger] text_norm(s, i)[j]
                    == ' ' implies text_norm(s, i)[j + 1] != ' ' by {
                if j > 0 {
                    assert(text_norm(s, i)[j] == rest[j - 1]);
                    assert(text_norm(s, i)[j + 1] == rest[j]);
                }
            }
        } else {
            lemma_run_len(s, i, Cond::TextPart);
            let t = run_len(s, i, Cond::TextPart) as int;
            lemma_text_norm_collapsed(s, i + t);
            let part = s.subrange(i, i + t);
            let rest = text_norm(s, i + t);
            assert(forall|j: int| 0 <= j < t ==> part[j] == s[i + j] && !is_space(s[i + j]));
            assert forall|j: int|
                0 <= j && j + 1 < text_norm(s, i).len() && #[trigger] text_norm(s, i)[j]
                    == ' ' implies text_norm(s, i)[j + 1] != ' ' by {
                if j + 1 < t {
                    assert(text_norm(s, i)[j] == part[j]);
                } else if j < t {
                    assert(text_norm(s, i)[j] == part[j]);
                    assert(part[j] != ' ');
                } else {
                    assert(text_norm(s, i)[j] == rest[j - t]);
                    assert(text_norm(s, i)[j + 1] == rest[j + 1 - t]);
                }
            }
        }
    }
}

/// Law: a closing tag ends its sibling level contributing no node of its
/// own: the level hands back exactly the siblings it had gathered, and the
/// closing tag's name goes only to the back of the pending-closure queue.
/// A queue entry never reconciled with an element is discarded with the
/// parser: `parse_all` returns the nodes alone.
pub proof fn lemma_closing_tag_ends_level(s: Seq<char>, i: int, q: Seq<Seq<char>>, acc: Seq<SNode>)
    requires
        0 <= i <= s.len(),
        ({
            let j = i + run_len(s, i, Cond::Space);
            j + 1 < s.len() && s[j] == '<' && s[j + 1] == '/'
        }),
    ensures
        parse_level(s, i, q, acc).0 == acc,
        ({
            let j = i + run_len(s, i, Cond::Space);
            let w2 = j + 2 + run_len(s, j + 2, Cond::Space);
            let ne = w2 + run_len(s, w2, Cond::TagName);
            parse_level(s, i, q, acc).2 == q.push(s.subrange(w2, ne))
        }),
{
    lemma_run_len(s, i, Cond::Space);
}

impl HtmlParser {
    /// The input characters.
    pub closed spec fn text(self) -> Seq<char> {
        self.input@
    }

    /// The cursor: how many characters have been consumed.
    pub closed spec fn at(self) -> int {
        self.pos as int
    }

    /// The pending-closure queue, front first.
    pub closed spec fn queue(self) -> Seq<Seq<char>> {
        strs_view(self.node_q@)
    }

    /// The cursor never leaves the input.
    pub open spec fn wf(self) -> bool {
        0 <= self.at() <= self.text().len()
    }

    /// A scanner over `full_html`, at its beginning, with an empty queue.
    pub fn new(full_html: &str) -> (p: HtmlParser)
        ensures
            p.wf(),
            p.text() == full_html@,
            p.at() == 0,
            p.queue() == Seq::<Seq<char>>::empty(),
    {
        let p = HtmlParser { input: str_chars(full_html), pos: 0, node_q: Vec::new() };
        proof {
            assert(p.queue() =~= Seq::<Seq<char>>::empty());
        }
        p
    }

    /// The next character, if any, without consuming it.
    fn peek(&self) -> (r: Option<char>)
        requires
            self.wf(),
        ensures
            r == (if self.at() < self.text().len() {
                Some(self.text()[self.at()])
            } else {
                None::<char>
            }),
    {
        if self.pos < self.input.len() {
            Some(self.input[self.pos])
        } else {
            None
        }
    }

    /// Consumes and returns the next character, if any.
    fn advance(&mut self) -> (r: Option<char>)
        requires
            old(self).wf(),
        ensures
            final(self).wf(),
            final(self).text() == old(self).text(),
            final(self).queue() == old(self).queue(),
            old(self).at() < old(self).text().len() ==> final(self).at() == old(self).at() + 1
                && r == Some(old(self).text()[old(self).at()]),
            old(self).at() >= old(self).text().len() ==> final(self).at() == old(self).at()
                && r is None,
    {
        if self.pos < self.input.len() {
            let c = self.input[self.pos];
            self.pos = self.pos + 1;
            Some(c)
        } else {
            None
        }
    }

    /// Consumes the longest run of characters of class `k` and returns it.
    fn consume_while(&mut self, k: Cond) -> (r: Vec<char>)
        requires
            old(self).wf(),
        ensures
            final(self).wf(),
            final(self).text() == old(self).text(),
            final(self).queue() == old(self).queue(),
            final(self).at() == old(self).at() + run_len(old(self).text(), old(self).at(), k),
            r@ == old(self).text().subrange(old(self).at(), final(self).at()),
    {
        let mut out: Vec<char> = Vec::new();
        let ghost s = self.text();
        let ghost at0 = self.at();
        let ghost q0 = self.queue();
        loop
            invariant
                self.wf(),
                self.text() == s,
                self.queue() == q0,
                at0 <= self.at() <= s.len(),
                run_len(s, at0, k) == (self.at() - at0) + run_len(s, self.at(), k),
                out@.len() == self.at() - at0,
                forall|j: int| at0 <= j < self.at() ==> out@[j - at0] == s[j],
            ensures
                self.wf(),
                self.text() == s,
                self.queue() == q0,
                at0 <= self.at() <= s.len(),
                run_len(s, at0, k) == (self.at() - at0) + run_len(s, self.at(), k),
                out@.len() == self.at() - at0,
                forall|j: int| at0 <= j < self.at() ==> out@[j - at0] == s[j],
                self.at() == s.len() || !crate::scan::holds_for(k, s[self.at()]),
            decreases s.len() - self.at(),
        {
            if self.pos >= self.input.len() {
                break;
            }
            let c = self.input[self.pos];
            if !cond_check(k, c) {
                break;
            }
            self.pos = self.pos + 1;
            out.push(c);
        }
        proof {
            assert(run_len(s, self.at(), k) == 0);
            assert(out@ =~= s.subrange(at0, self.at()));
        }
        out
    }

    /// Consumes a text run into a text node. The run ends at the next `<` or
    /// at the end of input; its whitespace runs collapse to single spaces,
    /// and `leading` says whether a collapsed whitespace run immediately
    /// preceded it.
    fn parse_text_node(&mut self, leading: bool) -> (n: Node)
        requires
            old(self).wf(),
        ensures
            final(self).wf(),
            final(self).text() == old(self).text(),
            final(self).queue() == old(self).queue(),
            final(self).at() == old(self).at() + run_len(
                old(self).text(),
                old(self).at(),
                Cond::NotChar('<'),
            ),
            n.children@.len() == 0,
            n.node_type matches NodeType::Text(t) && t@ == (if leading {
                seq![' ']
            } else {
                Seq::<char>::empty()
            }).add(text_norm(old(self).text(), old(self).at())),
    {
        let mut content: Vec<char> = Vec::new();
        if leading {
            content.push(' ');
        }
        let ghost s = self.text();
        let ghost at0 = self.at();
        let ghost lead: Seq<char> = if leading {
            seq![' ']
        } else {
            Seq::empty()
        };
        proof {
            assert(content@ =~= lead);
        }
        let ghost q0 = self.queue();
        loop
            invariant
                self.wf(),
                self.text() == s,
                self.queue() == q0,
                at0 <= self.at() <= s.len(),
                run_len(s, at0, Cond::NotChar('<')) == (self.at() - at0) + run_len(
                    s,
                    self.at(),
                    Cond::NotChar('<'),
                ),
                lead.add(text_norm(s, at0)) == content@.add(text_norm(s, self.at())),
            ensures
                self.wf(),
                self.text() == s,
                self.queue() == q0,
                at0 <= self.at() <= s.len(),
                run_len(s, at0, Cond::NotChar('<')) == (self.at() - at0) + run_len(
                    s,
                    self.at(),
                    Cond::NotChar('<'),
                ),
                lead.add(text_norm(s, at0)) == content@.add(text_norm(s, self.at())),
                self.at() == s.len() || s[self.at()] == '<',
            decreases s.len() - self.at(),
        {
            if self.pos >= self.input.len() {
                break;
            }
            let c = self.input[self.pos];
            if c == '<' {
                break;
            }
            let ghost mid = self.at();
            let ws = self.consume_while(Cond::Space);
            if ws.len() > 0 {
                content.push(' ');
            }
            let ghost mid2 = self.at();
            let mut part = self.consume_while(Cond::TextPart);
            content.append(&mut part);
            proof {
                lemma_run_len(s, mid, Cond::Space);
                lemma_run_len(s, mid2, Cond::TextPart);
                assert(forall|m: int| mid <= m < self.at() ==> #[trigger] s[m] != '<');
                lemma_run_extend(s, mid, self.at(), Cond::NotChar('<'));
                if is_space(s[mid]) {
                    assert(text_norm(s, mid) == seq![' '].add(text_norm(s, mid2)));
                } else {
                    assert(mid2 == mid);
                }
                if mid2 < s.len() && s[mid2] != '<' && !is_space(s[mid2]) {
                    assert(text_norm(s, mid2) == s.subrange(
                        mid2,
                        mid2 + run_len(s, mid2, Cond::TextPart),
                    ).add(text_norm(s, self.at())));
                } else {
                    assert(run_len(s, mid2, Cond::TextPart) == 0);
                    assert(text_norm(s, mid2) == text_norm(s, self.at()));
                }
            }
        }
        proof {
            assert(run_len(s, self.at(), Cond::NotChar('<')) == 0);
            assert(text_norm(s, self.at()) == Seq::<char>::empty());
            assert(content@.add(Seq::<char>::empty()) =~= content@);
            assert(lead.add(text_norm(s, at0)) == content@);
        }
        Node::new(NodeType::Text(chars_to_string(&content)), Vec::new())
    }

    /// Consumes one attribute value: optional whitespace, then either a
    /// quoted string (quotes consumed, content kept verbatim) or an
    /// unquoted run of value characters.
    fn parse_attr_value(&mut self) -> (r: Vec<char>)
        requires
            old(self).wf(),
        ensures
            final(self).wf(),
            final(self).text() == old(self).text(),
            final(self).queue() == old(self).queue(),
            r@ == attr_value_content(old(self).text(), old(self).at()),
            final(self).at() == attr_value_end(old(self).text(), old(self).at()),
    {
        let ghost s = self.text();
        let ghost at0 = self.at();
        self.consume_while(Cond::Space);
        proof {
            lemma_run_len(s, at0, Cond::Space);
        }
        let p = self.peek();
        match p {
            Some(c) => {
                if c == '"' || c == '\'' {
                    self.advance();
                    let ret = self.consume_while(Cond::NotChar(c));
                    proof {
                        lemma_run_len(s, self.at(), Cond::NotChar(c));
                    }
                    self.advance();
                    ret
                } else {
                    self.consume_while(Cond::AttrValue)
                }
            },
            None => self.consume_while(Cond::AttrValue),
        }
    }

    /// Consumes an attribute list up to and including the closing `>`.
    /// Names are case-folded to lowercase; values keep their case; a
    /// repeated name keeps its last value.
    fn parse_attributes(&mut self) -> (r: AttrMap)
        requires
            old(self).wf(),
        ensures
            final(self).wf(),
            final(self).text() == old(self).text(),
            final(self).queue() == old(self).queue(),
            (r@, final(self).at()) == attrs_rec(
                old(self).text(),
                old(self).at(),
                Map::<Seq<char>, Seq<char>>::empty(),
            ),
    {
        let mut attributes = AttrMap::new();
        let ghost s = self.text();
        let ghost at0 = self.at();
        let ghost q0 = self.queue();
        loop
            invariant
                self.wf(),
                self.text() == s,
                self.queue() == q0,
                at0 <= self.at() <= s.len(),
                attrs_rec(s, self.at(), attributes@) == attrs_rec(
                    s,
                    at0,
                    Map::<Seq<char>, Seq<char>>::empty(),
                ),
            ensures
                self.wf(),
                self.text() == s,
                self.queue() == q0,
                at0 <= self.at() <= s.len(),
                (self.at() < s.len() && (attributes@, self.at() + 1) == attrs_rec(
                    s,
                    at0,
                    Map::<Seq<char>, Seq<char>>::empty(),
                )) || (self.at() == s.len() && (attributes@, self.at()) == attrs_rec(
                    s,
                    at0,
                    Map::<Seq<char>, Seq<char>>::empty(),
                )),
            decreases s.len() - self.at(),
        {
            let ghost ati = self.at();
            let ghost mi = attributes@;
            let p0 = self.peek();
            match p0 {
                None => {
                    break;
                },
                Some(c0) => {
                    if c0 == '>' {
                        break;
                    }
                },
            }
            self.consume_while(Cond::Space);
            let name_chars = self.consume_while(Cond::AttrName);
            let name_empty = name_chars.len() == 0;
            let name = lowercase(chars_to_string(&name_chars).as_str());
            self.consume_while(Cond::Space);
            proof {
                lemma_run_len(s, ati, Cond::Space);
                lemma_run_len(s, ati + run_len(s, ati, Cond::Space), Cond::AttrName);
            }
            let p = self.peek();
            let is_eq = match p {
                Some(c) => c == '=',
                None => false,
            };
            let can_skip = match p {
                Some(c) => c != '=' && c != '>',
                None => false,
            };
            let ghost j = ati + run_len(s, ati, Cond::Space);
            let ghost nl = run_len(s, j, Cond::AttrName) as int;
            let ghost k = j + nl + run_len(s, j + nl, Cond::Space);
            if is_eq {
                self.advance();
                let value = self.parse_attr_value();
                self.consume_while(Cond::AttrJunk);
                self.consume_while(Cond::Space);
                attributes.insert(name, chars_to_string(&value));
                proof {
                    assert(attrs_rec(s, ati, mi) == attrs_rec(s, self.at(), attributes@));
                }
            } else if name_empty && can_skip {
                self.advance();
                proof {
                    assert(attrs_rec(s, ati, mi) == attrs_rec(s, self.at(), attributes@));
                }
            } else {
                attributes.insert(name, String::new());
                proof {
                    assert(self.at() == k);
                    if k == ati {
                        assert(s[ati] != '>');
                        assert(nl == 0);
                        assert(false);
                    }
                    assert(attrs_rec(s, ati, mi) == attrs_rec(s, self.at(), attributes@));
                }
            }
        }
        self.advance();
        attributes
    }

    /// Consumes a comment construct, right after its `<!` was consumed, and
    /// returns the comment node. Malformed spellings degrade to an empty
    /// comment; the scanner never fails.
    fn parse_comment_node(&mut self) -> (n: Node)
        requires
            old(self).wf(),
        ensures
            final(self).wf(),
            final(self).text() == old(self).text(),
            final(self).queue() == old(self).queue(),
            old(self).at() <= final(self).at(),
            n.children@.len() == 0,
            n.node_type matches NodeType::Comment(t) && (t@, final(self).at()) == comment_spec(
                old(self).text(),
                old(self).at(),
            ),
    {
        let ghost s = self.text();
        let ghost at0 = self.at();
        let ghost q0 = self.queue();
        let mut content: Vec<char> = Vec::new();
        let first_dash = match self.peek() {
            Some(c) => c == '-',
            None => false,
        };
        if !first_dash {
            self.consume_while(Cond::NotChar('>'));
            proof {
                lemma_run_len(s, at0, Cond::NotChar('>'));
            }
            self.advance();
            return Node::new(NodeType::Comment(String::new()), Vec::new());
        }
        self.advance();
        let second_dash = match self.peek() {
            Some(c) => c == '-',
            None => false,
        };
        if !second_dash {
            self.consume_while(Cond::NotChar('>'));
            proof {
                lemma_run_len(s, at0 + 1, Cond::NotChar('>'));
            }
            self.advance();
            return Node::new(NodeType::Comment(String::new()), Vec::new());
        }
        self.advance();
        let early_gt = match self.peek() {
            Some(c) => c == '>',
            None => false,
        };
        if early_gt {
            self.advance();
            return Node::new(NodeType::Comment(String::new()), Vec::new());
        }
        let early_dash = match self.peek() {
            Some(c) => c == '-',
            None => false,
        };
        if early_dash {
            self.advance();
            let gt = match self.peek() {
                Some(c) => c == '>',
                None => false,
            };
            if gt {
                self.advance();
                return Node::new(NodeType::Comment(String::new()), Vec::new());
            }
            content.push('-');
        }
        let ghost target = comment_spec(s, at0);
        proof {
            if content@.len() > 0 {
                assert(content@ =~= seq!['-']);
            }
            assert(target == comment_rec(s, self.at(), content@));
        }
        loop
            invariant_except_break
                comment_rec(s, self.at(), content@) == target,
            invariant
                self.wf(),
                self.text() == s,
                self.queue() == q0,
                at0 <= self.at() <= s.len(),
                s == old(self).text(),
                q0 == old(self).queue(),
                at0 == old(self).at(),
                target == comment_spec(s, at0),
            ensures
                self.wf(),
                self.text() == s,
                self.queue() == q0,
                at0 <= self.at() <= s.len(),
                (content@, self.at()) == target,
            decreases s.len() - self.at(),
        {
            let ghost ati = self.at();
            let ghost c0 = content@;
            let mut run = self.consume_while(Cond::CommentRun);
            content.append(&mut run);
            proof {
                lemma_run_len(s, ati, Cond::CommentRun);
            }
            let p1 = self.peek();
            if p1.is_none() {
                proof {
                    assert(comment_rec(s, ati, c0) == (content@, self.at()));
                }
                break ;
            }
            let c1 = p1.unwrap();
            if c1 == '<' {
                self.advance();
                let bang = match self.peek() {
                    Some(c) => c == '!',
                    None => false,
                };
                if bang {
                    self.advance();
                    let pa = self.peek();
                    let a_dash = match pa {
                        Some(c) => c == '-',
                        None => false,
                    };
                    let a_space = match pa {
                        Some(c) => c == ' ',
                        None => false,
                    };
                    if a_dash {
                        self.advance();
                        let b_dash = match self.peek() {
                            Some(c) => c == '-',
                            None => false,
                        };
                        if b_dash {
                            self.consume_while(Cond::NotChar('>'));
                            proof {
                                assert(comment_rec(s, ati, c0) == (Seq::<char>::empty(), self.at()));
                            }
                            return Node::new(NodeType::Comment(String::new()), Vec::new());
                        } else {
                            content.push('<');
                            content.push('!');
                            content.push('-');
                        }
                    } else if a_space {
                        self.advance();
                        let s1 = match self.peek() {
                            Some(c) => c == '-',
                            None => false,
                        };
                        if s1 {
                            self.advance();
                            let s2 = match self.peek() {
                                Some(c) => c == '-',
                                None => false,
                            };
                            if s2 {
                                self.advance();
                                let s3 = match self.peek() {
                                    Some(c) => c == '-',
                                    None => false,
                                };
                                if s3 {
                                    self.advance();
                                    let s4 = match self.peek() {
                                        Some(c) => c == '>',
                                        None => false,
                                    };
                                    if s4 {
                                        self.advance();
                                        proof {
                                            assert(comment_rec(s, ati, c0) == (
                                                Seq::<char>::empty(),
                                                self.at(),
                                            ));
                                        }
                                        return Node::new(
                                            NodeType::Comment(String::new()),
                                            Vec::new(),
                                        );
                                    } else {
                                        content.push('<');
                                        content.push('!');
                                        content.push(' ');
                                        content.push('-');
                                        content.push('-');
                                    }
                                } else {
                                    content.push('<');
                                    content.push('!');
                                    content.push(' ');
                                    content.push('-');
                                }
                            } else {
                                content.push('<');
                                content.push('!');
                                content.push(' ');
                            }
                        }
                    } else {
                        content.push('<');
                        content.push('!');
                    }
                } else {
                    content.push('<');
                }
            } else {
                self.advance();
                let d2 = match self.peek() {
                    Some(c) => c == '-',
                    None => false,
                };
                if d2 {
                    self.advance();
                    let d3 = match self.peek() {
                        Some(c) => c == '>',
                        None => false,
                    };
                    if d3 {
                        self.advance();
                        proof {
                            assert(comment_rec(s, ati, c0) == (content@, self.at()));
                        }
                        break ;
                    } else {
                        content.push('-');
                        content.push('-');
                    }
                } else {
                    content.push('-');
                }
            }
            proof {
                assert(comment_rec(s, ati, c0) == comment_rec(s, self.at(), content@));
            }
        }
        Node::new(NodeType::Comment(chars_to_string(&content)), Vec::new())
    }

    /// Consumes an element construct, right after its `<` was consumed: its
    /// tag name, its attribute list, and, recursively, its children.
    fn parse_node(&mut self) -> (n: Node)
        requires
            old(self).wf(),
        ensures
            final(self).wf(),
            final(self).text() == old(self).text(),
            old(self).at() <= final(self).at(),
            node_view(n) == parse_elem(old(self).text(), old(self).at(), old(self).queue()).0,
            final(self).at() == parse_elem(old(self).text(), old(self).at(), old(self).queue()).1,
            final(self).queue() == parse_elem(old(self).text(), old(self).at(), old(self).queue()).2,
            n.node_type is Element,
        decreases self.text().len() - self.at(), 1int,
    {
        let ghost s = self.text();
        let ghost at0 = self.at();
        let ghost q0 = self.queue();
        let tag_chars = self.consume_while(Cond::TagName);
        let tagname = chars_to_string(&tag_chars);
        let attributes = self.parse_attributes();
        proof {
            lemma_run_len(s, at0, Cond::TagName);
            lemma_attrs_rec_bounds(s, at0 + run_len(s, at0, Cond::TagName), Map::empty());
        }
        let children = self.parse_nodes();
        let n = Node::new(NodeType::Element(ElementData::new(tagname, attributes)), children);
        proof {
            lemma_parse_level_bounds(
                s,
                attrs_rec(s, at0 + run_len(s, at0, Cond::TagName), Map::empty()).1,
                q0,
                Seq::empty(),
            );
        }
        n
    }

    /// Gathers the sibling nodes of one nesting level: text runs, comments
    /// and elements, until a closing tag ends the level or the input is
    /// exhausted. A closing tag's name joins the back of the pending-closure
    /// queue; each finished element is reconciled against the queue's front,
    /// and on a mismatch its children are hoisted up to this level while the
    /// pending name stays queued for an ancestor.
    pub fn parse_nodes(&mut self) -> (nodes: Vec<Node>)
        requires
            old(self).wf(),
        ensures
            final(self).wf(),
            final(self).text() == old(self).text(),
            old(self).at() <= final(self).at(),
            (nodes_view(nodes@), final(self).at(), final(self).queue()) == parse_level(
                old(self).text(),
                old(self).at(),
                old(self).queue(),
                Seq::<SNode>::empty(),
            ),
        decreases self.text().len() - self.at(), 0int,
    {
        let mut nodes: Vec<Node> = Vec::new();
        let ghost s = self.text();
        let ghost at0 = self.at();
        let ghost q0 = self.queue();
        let ghost target = parse_level(s, at0, q0, Seq::<SNode>::empty());
        proof {
            assert(nodes_view(nodes@) =~= Seq::<SNode>::empty());
        }
        loop
            invariant_except_break
                parse_level(s, self.at(), self.queue(), nodes_view(nodes@)) == target,
            invariant
                self.wf(),
                self.text() == s,
                at0 <= self.at() <= s.len(),
                s == old(self).text(),
                at0 == old(self).at(),
                q0 == old(self).queue(),
                target == parse_level(s, at0, q0, Seq::<SNode>::empty()),
            ensures
                self.wf(),
                self.text() == s,
                at0 <= self.at() <= s.len(),
                (nodes_view(nodes@), self.at(), self.queue()) == target,
            decreases s.len() - self.at(),
        {
            let ghost ati = self.at();
            let ghost qi = self.queue();
            let ghost acci = nodes_view(nodes@);
            if self.pos >= self.input.len() {
                proof {
                    assert(parse_level(s, ati, qi, acci) == (acci, ati, qi));
                }
                break ;
            }
            let ws = self.consume_while(Cond::Space);
            let leading = ws.len() > 0;
            proof {
                lemma_run_len(s, ati, Cond::Space);
            }
            let p = self.peek();
            if p.is_none() {
                proof {
                    assert(parse_level(s, ati, qi, acci) == (acci, self.at(), qi));
                }
                break ;
            }
            let c = p.unwrap();
            if c == '<' {
                self.advance();
                let p2 = self.peek();
                let is_close = match p2 {
                    Some(c2) => c2 == '/',
                    None => false,
                };
                let is_bang = match p2 {
                    Some(c2) => c2 == '!',
                    None => false,
                };
                if is_close {
                    self.advance();
                    self.consume_while(Cond::Space);
                    let close_chars = self.consume_while(Cond::TagName);
                    self.consume_while(Cond::NotChar('>'));
                    self.advance();
                    let ghost qbefore = self.node_q@;
                    self.node_q.push(chars_to_string(&close_chars));
                    proof {
                        crate::dom::lemma_strs_view(qbefore);
                        crate::dom::lemma_strs_view(self.node_q@);
                        assert(self.queue() =~= qi.push(close_chars@));
                        assert(parse_level(s, ati, qi, acci) == (acci, self.at(), self.queue()));
                    }
                    break ;
                } else if is_bang {
                    self.advance();
                    let ghost atc = self.at();
                    let cn = self.parse_comment_node();
                    let ghost nbefore = nodes@;
                    nodes.push(cn);
                    proof {
                        lemma_comment_spec_bounds(s, atc);
                        crate::dom::lemma_nodes_view_push(nbefore, cn);
                        assert(parse_level(s, ati, qi, acci) == parse_level(
                            s,
                            self.at(),
                            self.queue(),
                            nodes_view(nodes@),
                        ));
                    }
                } else {
                    let ghost atn = self.at();
                    let ghost ne = atn + run_len(s, atn, Cond::TagName);
                    let ghost ename = s.subrange(atn, ne);
                    let ghost ar = attrs_rec(s, ne, Map::<Seq<char>, Seq<char>>::empty());
                    let ghost child = parse_level(s, ar.1, qi, Seq::<SNode>::empty());
                    let mut node = self.parse_node();
                    proof {
                        lemma_run_len(s, atn, Cond::TagName);
                        lemma_attrs_rec_bounds(s, ne, Map::empty());
                        lemma_parse_level_bounds(s, ar.1, qi, Seq::empty());
                        assert(node_view(node) == SNode::Elem {
                            name: ename,
                            attrs: ar.0,
                            kids: child.0,
                        });
                        assert(self.at() == child.1 && self.queue() == child.2);
                        crate::dom::lemma_strs_view(self.node_q@);
                    }
                    let insert_index = nodes.len();
                    let tag: String = match &node.node_type {
                        NodeType::Element(e) => e.tag_name.clone(),
                        NodeType::Text(_) => String::new(),
                        NodeType::Comment(_) => String::new(),
                    };
                    proof {
                        assert(tag@ == ename);
                    }
                    let ghost nbefore = nodes@;
                    let ghost kidsv = node.children@;
                    let ghost mismatch = child.2.len() > 0 && child.2[0] != ename;
                    if self.node_q.len() > 0 {
                        let ghost qaf = self.node_q@;
                        let assumed = self.node_q.remove(0);
                        proof {
                            crate::dom::lemma_strs_view(qaf);
                            assert(assumed@ == child.2[0]);
                        }
                        if !(tag == assumed) {
                            nodes.append(&mut node.children);
                            self.node_q.insert(0, assumed);
                            proof {
                                assert(self.node_q@ =~= qaf);
                                assert(self.queue() == child.2);
                                assert(nodes@ == nbefore + kidsv);
                            }
                        } else {
                            proof {
                                crate::dom::lemma_strs_view(qaf.remove(0));
                                assert(strs_view(qaf.remove(0)) =~= child.2.drop_first());
                            }
                        }
                    }
                    nodes.insert(insert_index, node);
                    proof {
                        if mismatch {
                            assert(node_view(node) == SNode::Elem {
                                name: ename,
                                attrs: ar.0,
                                kids: nodes_view(Seq::<Node>::empty()),
                            });
                            assert(nodes_view(Seq::<Node>::empty()) == Seq::<SNode>::empty());
                            crate::dom::lemma_nodes_view_insert_mid(nbefore, kidsv, node);
                            assert(nodes_view(nodes@) == acci.add(
                                seq![SNode::Elem { name: ename, attrs: ar.0, kids: Seq::empty() }],
                            ).add(child.0));
                        } else {
                            assert(nodes@ =~= nbefore.push(node));
                            crate::dom::lemma_nodes_view_push(nbefore, node);
                        }
                        assert(parse_level(s, ati, qi, acci) == parse_level(
                            s,
                            self.at(),
                            self.queue(),
                            nodes_view(nodes@),
                        ));
                    }
                }
            } else {
                let ghost nbefore = nodes@;
                let t = self.parse_text_node(leading);
                nodes.push(t);
                proof {
                    lemma_run_len(s, self.at(), Cond::NotChar('<'));
                    crate::dom::lemma_nodes_view_push(nbefore, t);
                    assert(parse_level(s, ati, qi, acci) == parse_level(
                        s,
                        self.at(),
                        self.queue(),
                        nodes_view(nodes@),
                    ));
                }
            }
        }
        nodes
    }

    /// Parses from the cursor to the end of the input, gathering every
    /// top-level sibling; stray closing tags end one level and the next
    /// begins right after them. The cursor is always exhausted.
    pub fn parse_all(&mut self) -> (nodes: Vec<Node>)
        requires
            old(self).wf(),
        ensures
            final(self).wf(),
            final(self).text() == old(self).text(),
            final(self).at() == final(self).text().len(),
            nodes_view(nodes@) == parse_doc(old(self).text(), old(self).at(), old(self).queue()),
    {
        let mut nodes: Vec<Node> = Vec::new();
        let ghost s = self.text();
        let ghost at0 = self.at();
        let ghost q0 = self.queue();
        proof {
            assert(nodes_view(nodes@) =~= Seq::<SNode>::empty());
        }
        loop
            invariant
                self.wf(),
                self.text() == s,
                at0 <= self.at() <= s.len(),
                s == old(self).text(),
                at0 == old(self).at(),
                q0 == old(self).queue(),
                nodes_view(nodes@) + parse_doc(s, self.at(), self.queue()) == parse_doc(s, at0, q0),
            ensures
                self.wf(),
                self.text() == s,
                self.at() == s.len(),
                nodes_view(nodes@) + parse_doc(s, self.at(), self.queue()) == parse_doc(s, at0, q0),
            decreases s.len() - self.at(),
        {
            if self.pos >= self.input.len() {
                break ;
            }
            let ghost ati = self.at();
            let ghost qi = self.queue();
            let ghost nbefore = nodes@;
            let mut batch = self.parse_nodes();
            let ghost batchv = batch@;
            let ghost bv = nodes_view(batchv);
            nodes.append(&mut batch);
            proof {
                crate::dom::lemma_nodes_view_add(nbefore, batchv);
                lemma_parse_level_progress(s, ati, qi, Seq::empty());
                let r = parse_level(s, ati, qi, Seq::<SNode>::empty());
                assert(parse_doc(s, ati, qi) == r.0 + parse_doc(s, self.at(), self.queue()));
                assert((nodes_view(nbefore) + bv) + parse_doc(s, self.at(), self.queue()) =~= nodes_view(
                    nbefore,
                ) + (bv + parse_doc(s, self.at(), self.queue())));
            }
        }
        proof {
            assert(parse_doc(s, self.at(), self.queue()) == Seq::<SNode>::empty());
            assert(nodes_view(nodes@) + Seq::<SNode>::empty() =~= nodes_view(nodes@));
        }
        nodes
    }
}

/// Parses a whole document into its top-level sibling forest; malformed
/// markup degrades to a best-effort tree and is never an error.
pub fn parse(full_html: &str) -> (nodes: Vec<Node>)
    ensures
        nodes_view(nodes@) == parsed_doc(full_html@),
{
    let mut parser = HtmlParser::new(full_html);
    parser.parse_all()
}

} // verus!
