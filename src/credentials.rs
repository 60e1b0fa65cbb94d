use vstd::prelude::*;

use crate::cpu::{find_after, find_exec, find_from};
use crate::text::{is_blank, is_blank_seq, seq_contains};

verus! {

/// `w` with its line feeds removed.
pub open spec fn drop_newlines(w: Seq<char>) -> Seq<char>
    decreases w.len(),
{
    if w.len() == 0 {
        Seq::empty()
    } else {
        drop_newlines(w.drop_last()) + if w.last() == '\n' {
            Seq::empty()
        } else {
            seq![w.last()]
        }
    }
}

/// A paragraph contributes its text without line feeds, unless it is blank.
pub open spec fn keep_paragraph(piece: Seq<char>) -> Seq<Seq<char>> {
    if is_blank_seq(piece) {
        Seq::empty()
    } else {
        seq![drop_newlines(piece)]
    }
}

/// The credentials held by the paragraphs of `s` from position `i` on:
/// paragraphs are separated by an empty line.
pub open spec fn paragraphs_from(s: Seq<char>, i: int) -> Seq<Seq<char>>
    decreases s.len() + 1 - i,
{
    if i < 0 || i > s.len() {
        Seq::empty()
    } else {
        match find_from(s, "\n\n"@, i) {
            Some(p) => if i < p + 2 <= s.len() + 1 {
                keep_paragraph(s.subrange(i, p)) + paragraphs_from(s, p + 2)
            } else {
                Seq::empty()
            },
            None => keep_paragraph(s.subrange(i, s.len() as int)),
        }
    }
}

/// A line without its carriage return, if it ends with one.
pub open spec fn strip_cr(l: Seq<char>) -> Seq<char> {
    if l.len() > 0 && l.last() == '\r' {
        l.drop_last()
    } else {
        l
    }
}

pub open spec fn keep_line(l: Seq<char>) -> Seq<Seq<char>> {
    if is_blank_seq(strip_cr(l)) {
        Seq::empty()
    } else {
        seq![strip_cr(l)]
    }
}

/// The credentials held by the lines of `s` from position `i` on, one per
/// non-blank line.
pub open spec fn lines_from(s: Seq<char>, i: int) -> Seq<Seq<char>>
    decreases s.len() - i,
{
    if i < 0 || i >= s.len() {
        Seq::empty()
    } else {
        match find_from(s, "\n"@, i) {
            Some(p) => if i < p + 1 <= s.len() {
                keep_line(s.subrange(i, p)) + lines_from(s, p + 1)
            } else {
                Seq::empty()
            },
            None => keep_line(s.subrange(i, s.len() as int)),
        }
    }
}

/// The credentials of a file: one per paragraph, line feeds removed, where
/// the file holds an empty line; else one per line. Blank ones are left out.
pub open spec fn credentials(s: Seq<char>) -> Seq<Seq<char>> {
    if seq_contains(s, "\n\n"@) {
        paragraphs_from(s, 0)
    } else {
        lines_from(s, 0)
    }
}

proof fn lemma_find_from_is_occurrence(hay: Seq<char>, needle: Seq<char>, i: int)
    requires
        0 <= i,
    ensures
        find_from(hay, needle, i) matches Some(p) ==> crate::text::occurs_at(hay, needle, p),
        find_from(hay, needle, i) is None ==> forall|j: int|
            i <= j ==> !crate::text::occurs_at(hay, needle, j),
    decreases hay.len() + 1 - i,
{
    if i + needle.len() <= hay.len() && !crate::text::occurs_at(hay, needle, i) {
        lemma_find_from_is_occurrence(hay, needle, i + 1);
    }
}

fn without_newlines(piece: &str) -> (r: String)
    ensures
        r@ == drop_newlines(piece@),
{
    let n = piece.unicode_len();
    let mut out = String::new();
    let mut k: usize = 0;
    while k < n
        invariant
            n == piece@.len(),
            k <= n,
            out@ == drop_newlines(piece@.take(k as int)),
        decreases n - k,
    {
        proof {
            assert(piece@.take(k + 1).drop_last() =~= piece@.take(k as int));
        }
        if piece.get_char(k) != '\n' {
            let one = piece.substring_char(k, k + 1);
            proof {
                assert(one@ =~= seq![piece@[k as int]]);
            }
            out.append(one);
        } else {
            assert(drop_newlines(piece@.take(k as int)) + Seq::<char>::empty() =~= drop_newlines(piece@.take(k as int)));
        }
        k = k + 1;
    }
    proof {
        assert(piece@.take(n as int) =~= piece@);
    }
    out
}

/// The credentials from position `i` on, in paragraph or in line mode.
pub open spec fn remaining(s: Seq<char>, paragraphs: bool, i: int) -> Seq<Seq<char>> {
    if paragraphs {
        paragraphs_from(s, i)
    } else {
        lines_from(s, i)
    }
}

/// Splits the text of a credential file into credentials.
pub fn parse_credentials(content: &str) -> (r: Vec<String>)
    ensures
        r@.len() == credentials(content@).len(),
        forall|m: int| 0 <= m < r@.len() ==> (#[trigger] r@[m])@ == credentials(content@)[m],
{
    let n = content.unicode_len();
    let paragraphs = find_exec(content, "\n\n").is_some();
    proof {
        lemma_find_from_is_occurrence(content@, "\n\n"@, 0);
    }
    let sep = if paragraphs {
        "\n\n"
    } else {
        "\n"
    };
    let sn: usize = if paragraphs {
        2
    } else {
        1
    };
    proof {
        reveal_strlit("\n\n");
        reveal_strlit("\n");
        assert(sep@.len() == sn);
    }
    let ghost target = credentials(content@);
    let mut r: Vec<String> = Vec::new();
    let ghost mut acc: Seq<Seq<char>> = Seq::empty();
    let mut i: usize = 0;
    let mut done = false;
    while !done
        invariant
            n == content@.len(),
            i <= n,
            sep@.len() == sn,
            sn >= 1,
            paragraphs ==> sep@ == "\n\n"@ && sn == 2,
            !paragraphs ==> sn == 1,
            !paragraphs ==> sep@ == "\n"@,
            r@.len() == acc.len(),
            forall|m: int| 0 <= m < r@.len() ==> (#[trigger] r@[m])@ == acc[m],
            !done ==> target == acc + remaining(content@, paragraphs, i as int),
            done ==> target == acc,
        decreases if done {
            0
        } else {
            n + 2 - i
        },
    {
        if !paragraphs && i >= n {
            proof {
                assert(remaining(content@, paragraphs, i as int) == lines_from(content@, i as int));
                assert(lines_from(content@, i as int) =~= Seq::<Seq<char>>::empty());
                assert(acc + remaining(content@, paragraphs, i as int) =~= acc);
            }
            done = true;
        } else {
            let (end, next, last) = match find_after(content, sep, n, i) {
                Some(p) => (p, p + sn, false),
                None => (n, n, true),
            };
            let piece = content.substring_char(i, end);
            let keep = if paragraphs {
                !is_blank(piece)
            } else {
                let pn = piece.unicode_len();
                let line = if pn > 0 && piece.get_char(pn - 1) == '\r' {
                    piece.substring_char(0, pn - 1)
                } else {
                    piece
                };
                !is_blank(line)
            };
            let ghost step = if paragraphs {
                keep_paragraph(content@.subrange(i as int, end as int))
            } else {
                keep_line(content@.subrange(i as int, end as int))
            };
            proof {
                if paragraphs {
                    assert(remaining(content@, paragraphs, i as int) == paragraphs_from(content@, i as int));
                    assert(remaining(content@, paragraphs, next as int) == paragraphs_from(content@, next as int));
                    assert(find_from(content@, "\n\n"@, i as int) == find_from(content@, sep@, i as int));
                } else {
                    assert(remaining(content@, paragraphs, i as int) == lines_from(content@, i as int));
                    assert(remaining(content@, paragraphs, next as int) == lines_from(content@, next as int));
                    assert(find_from(content@, "\n"@, i as int) == find_from(content@, sep@, i as int));
                }
                if last {
                    assert(find_from(content@, sep@, i as int) is None);
                    assert(end == n);
                } else {
                    assert(find_from(content@, sep@, i as int) == Some(end as int));
                    assert(i <= end && end + sn <= n);
                }
                if paragraphs {
                    if last {
                        assert(paragraphs_from(content@, i as int) == keep_paragraph(
                            content@.subrange(i as int, n as int),
                        ));
                    } else {
                        assert(paragraphs_from(content@, i as int) == keep_paragraph(
                            content@.subrange(i as int, end as int),
                        ) + paragraphs_from(content@, next as int));
                    }
                } else {
                    if last {
                        assert(lines_from(content@, i as int) == keep_line(
                            content@.subrange(i as int, n as int),
                        ));
                    } else {
                        assert(lines_from(content@, i as int) == keep_line(
                            content@.subrange(i as int, end as int),
                        ) + lines_from(content@, next as int));
                    }
                }
                assert(remaining(content@, paragraphs, i as int) =~= step + if last {
                    Seq::<Seq<char>>::empty()
                } else {
                    remaining(content@, paragraphs, next as int)
                });
            }
            if keep {
                let value = if paragraphs {
                    without_newlines(piece)
                } else {
                    let pn = piece.unicode_len();
                    if pn > 0 && piece.get_char(pn - 1) == '\r' {
                        String::from_str(piece.substring_char(0, pn - 1))
                    } else {
                        String::from_str(piece)
                    }
                };
                proof {
                    assert(step =~= seq![value@]);
                    acc = acc.push(value@);
                }
                r.push(value);
            } else {
                proof {
                    assert(step =~= Seq::<Seq<char>>::empty());
                }
            }
            proof {
                if last {
                    assert(target =~= acc);
                } else {
                    assert(target =~= acc + remaining(content@, paragraphs, next as int));
                }
            }
            i = next;
            done = last;
        }
    }
    r
}

} // verus!
