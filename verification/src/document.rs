use crate::lex::{pos_le, PPosition, PosM};
use vstd::prelude::*;
use vstd::string::StrSliceExecFns;

verus! {

// ---------------------------------------------------------------------------
// The line-start table
// ---------------------------------------------------------------------------

pub open spec fn breaks_rem(len: int, i: int) -> nat {
    if i <= len {
        (len - i) as nat
    } else {
        0
    }
}

/// The offsets just after every line break from `i` on; `\r\n` counts as one
/// break, a lone `\r` or `\n` as one each.
pub open spec fn line_breaks(s: Seq<char>, i: int) -> Seq<int>
    decreases breaks_rem(s.len() as int, i),
{
    if i < 0 || i >= s.len() {
        Seq::empty()
    } else if s[i] == '\r' {
        if i + 1 < s.len() && s[i + 1] == '\n' {
            seq![i + 2] + line_breaks(s, i + 2)
        } else {
            seq![i + 1] + line_breaks(s, i + 1)
        }
    } else if s[i] == '\n' {
        seq![i + 1] + line_breaks(s, i + 1)
    } else {
        line_breaks(s, i + 1)
    }
}

/// The ascending offsets at which lines start: 0, then one entry per break.
pub open spec fn line_starts(s: Seq<char>) -> Seq<int> {
    seq![0] + line_breaks(s, 0)
}

pub proof fn lemma_line_breaks_sorted(s: Seq<char>, i: int)
    requires
        0 <= i,
    ensures
        forall|k: int|
            0 <= k < line_breaks(s, i).len() ==> i < #[trigger] line_breaks(s, i)[k]
                <= s.len(),
        forall|k: int|
            0 <= k < line_breaks(s, i).len() - 1 ==> #[trigger] line_breaks(s, i)[k]
                < line_breaks(s, i)[k + 1],
    decreases breaks_rem(s.len() as int, i),
{
    if 0 <= i < s.len() {
        if s[i] == '\r' || s[i] == '\n' {
            let h = if s[i] == '\r' && i + 1 < s.len() && s[i + 1] == '\n' {
                i + 2
            } else {
                i + 1
            };
            lemma_line_breaks_sorted(s, h);
            let bs = line_breaks(s, i);
            let tail = line_breaks(s, h);
            assert(bs =~= seq![h] + tail);
            assert forall|k: int| 0 <= k < bs.len() implies i < #[trigger] bs[k] <= s.len() by {
                if k > 0 {
                    assert(bs[k] == tail[k - 1]);
                }
            }
            assert forall|k: int| 0 <= k < bs.len() - 1 implies #[trigger] bs[k] < bs[k + 1] by {
                if k == 0 {
                    assert(bs[1] == tail[0]);
                } else {
                    assert(bs[k] == tail[k - 1]);
                    assert(bs[k + 1] == tail[k]);
                }
            }
        } else {
            lemma_line_breaks_sorted(s, i + 1);
            assert(line_breaks(s, i) == line_breaks(s, i + 1));
        }
    }
}

/// The line-start table is ascending, opens at zero and stays within the
/// text.
pub proof fn lemma_line_starts_sorted(s: Seq<char>)
    ensures
        line_starts(s).len() >= 1,
        line_starts(s)[0] == 0,
        forall|k: int|
            0 <= k < line_starts(s).len() ==> 0 <= #[trigger] line_starts(s)[k] <= s.len(),
        forall|k: int|
            0 <= k < line_starts(s).len() - 1 ==> #[trigger] line_starts(s)[k] < line_starts(
                s,
            )[k + 1],
{
    lemma_line_breaks_sorted(s, 0);
}

// ---------------------------------------------------------------------------
// The offset model
// ---------------------------------------------------------------------------

/// The absolute character offset of a position: the row's line start plus the
/// column, never spilling into the next line's range; rows past the last line
/// clamp to the end of the text.
pub open spec fn offset_at_spec(s: Seq<char>, p: PosM) -> int {
    let lo = line_starts(s);
    if p.row >= lo.len() {
        s.len() as int
    } else if p.row < 0 {
        0
    } else {
        let line_off = lo[p.row];
        let next = if p.row + 1 < lo.len() {
            lo[p.row + 1]
        } else {
            s.len() as int
        };
        let cand = if line_off + p.col <= next {
            line_off + p.col
        } else {
            next
        };
        if cand >= line_off {
            cand
        } else {
            line_off
        }
    }
}

/// For a fixed row the offset never decreases as the column grows.
pub proof fn lemma_offset_at_monotonic(s: Seq<char>, row: int, c1: int, c2: int)
    requires
        c1 <= c2,
    ensures
        offset_at_spec(s, PosM { row, col: c1 }) <= offset_at_spec(s, PosM { row, col: c2 }),
{
    lemma_line_starts_sorted(s);
}

/// Column zero of every valid row sits exactly at that row's line start.
pub proof fn lemma_offset_at_line_start(s: Seq<char>, row: int)
    requires
        0 <= row < line_starts(s).len(),
    ensures
        offset_at_spec(s, PosM { row, col: 0 }) == line_starts(s)[row],
{
    lemma_line_starts_sorted(s);
}

// ---------------------------------------------------------------------------
// The document
// ---------------------------------------------------------------------------

/// A source text with a lazily computed, memoized line-start table. A changed
/// text is a new document.
pub struct Document {
    pub uri: String,
    pub langauge_id: String,
    pub version: u32,
    pub content: String,
    pub line_offsets: Option<Vec<u32>>,
}

/// Compute the line-start table of `text`.
#[verifier::loop_isolation(false)]
fn compute_line_offsets(text: &String) -> (r: Vec<u32>)
    requires
        text@.len() <= u32::MAX,
    ensures
        r@.map_values(|x: u32| x as int) == line_starts(text@),
{
    let ghost s = text@;
    let len = text.as_str().unicode_len();
    let mut results: Vec<u32> = Vec::new();
    results.push(0);
    proof {
        lemma_line_breaks_sorted(s, 0);
        assert(results@.map_values(|x: u32| x as int) =~= seq![0int]);
    }
    let mut k: usize = 0;
    while k < len
        invariant
            k <= len,
            line_starts(s) == results@.map_values(|x: u32| x as int) + line_breaks(s, k as int),
        decreases len - k,
    {
        let ghost res_pre = results@;
        let c = text.as_str().get_char(k);
        if c == '\r' {
            if k + 1 < len && text.as_str().get_char(k + 1) == '\n' {
                results.push((k + 2) as u32);
                proof {
                    assert(results@.map_values(|x: u32| x as int) =~= res_pre.map_values(
                        |x: u32| x as int,
                    ) + seq![k + 2int]);
                    assert(res_pre.map_values(|x: u32| x as int) + (seq![k + 2int] + line_breaks(
                        s,
                        k + 2int,
                    )) =~= results@.map_values(|x: u32| x as int) + line_breaks(s, k + 2int));
                }
                k = k + 2;
            } else {
                results.push((k + 1) as u32);
                proof {
                    assert(results@.map_values(|x: u32| x as int) =~= res_pre.map_values(
                        |x: u32| x as int,
                    ) + seq![k + 1int]);
                    assert(res_pre.map_values(|x: u32| x as int) + (seq![k + 1int] + line_breaks(
                        s,
                        k + 1int,
                    )) =~= results@.map_values(|x: u32| x as int) + line_breaks(s, k + 1int));
                }
                k = k + 1;
            }
        } else if c == '\n' {
            results.push((k + 1) as u32);
            proof {
                assert(results@.map_values(|x: u32| x as int) =~= res_pre.map_values(
                    |x: u32| x as int,
                ) + seq![k + 1int]);
                assert(res_pre.map_values(|x: u32| x as int) + (seq![k + 1int] + line_breaks(
                    s,
                    k + 1int,
                )) =~= results@.map_values(|x: u32| x as int) + line_breaks(s, k + 1int));
            }
            k = k + 1;
        } else {
            k = k + 1;
        }
    }
    results
}

impl Document {
    /// The characters of the document.
    pub open spec fn text(&self) -> Seq<char> {
        self.content@
    }

    /// The memo is either absent or exactly the line-start table, and the
    /// text fits 32-bit offsets.
    pub open spec fn wf(&self) -> bool {
        &&& self.text().len() <= u32::MAX
        &&& match self.line_offsets {
            None => true,
            Some(v) => v@.map_values(|x: u32| x as int) == line_starts(self.text()),
        }
    }

    pub fn new(uri: String, langauge_id: String, version: u32, content: String) -> (r: Self)
        requires
            content@.len() <= u32::MAX,
        ensures
            r.text() == content@,
            r.wf(),
            r.uri == uri,
            r.langauge_id == langauge_id,
            r.version == version,
    {
        Document { uri, langauge_id, version, content, line_offsets: None }
    }

    fn get_line_offsets(&mut self)
        requires
            old(self).wf(),
        ensures
            final(self).wf(),
            final(self).text() == old(self).text(),
            final(self).uri == old(self).uri,
            final(self).langauge_id == old(self).langauge_id,
            final(self).version == old(self).version,
            final(self).line_offsets matches Some(v) && v@.map_values(|x: u32| x as int)
                == line_starts(old(self).text()),
    {
        if self.line_offsets.is_none() {
            self.line_offsets = Some(compute_line_offsets(&self.content));
        }
    }

    /// A copy of the document's text.
    pub fn get_text(&self) -> (r: String)
        ensures
            r@ == self.text(),
    {
        self.content.clone()
    }

    pub fn position_at(&self) {
    }

    /// The absolute character offset of `position`, per `offset_at_spec`:
    /// clamped to the row's range, and to the text for rows past the end.
    pub fn offset_at(&mut self, position: PPosition) -> (r: u32)
        requires
            old(self).wf(),
        ensures
            final(self).wf(),
            final(self).text() == old(self).text(),
            final(self).uri == old(self).uri,
            final(self).langauge_id == old(self).langauge_id,
            final(self).version == old(self).version,
            r as int == offset_at_spec(old(self).text(), position@),
    {
        let ghost s = self.text();
        proof {
            lemma_line_starts_sorted(s);
        }
        self.get_line_offsets();
        let clen = self.content.as_str().unicode_len();
        let row = position.column;
        let col = position.line;
        let lo = match &self.line_offsets {
            Some(v) => v,
            None => {
                return 0;
            },
        };
        if row >= lo.len() {
            return clen as u32;
        }
        let line_offset = lo[row];
        let next: u32 = if row + 1 < lo.len() {
            lo[row + 1]
        } else {
            clen as u32
        };
        proof {
            assert(line_offset as int == line_starts(s)[row as int]);
            if row + 1 < lo@.len() {
                assert(next as int == line_starts(s)[row as int + 1]);
            }
            assert(line_offset <= next);
        }
        if col >= (next - line_offset) as usize {
            next
        } else {
            line_offset + col as u32
        }
    }
}

/// The line-start table grows along its indices.
pub proof fn lemma_line_starts_mono(s: Seq<char>, a: int, b: int)
    requires
        0 <= a <= b < line_starts(s).len(),
    ensures
        line_starts(s)[a] <= line_starts(s)[b],
    decreases b - a,
{
    lemma_line_starts_sorted(s);
    if a < b {
        lemma_line_starts_mono(s, a, b - 1);
    }
}

/// The offset never decreases along the lexicographic order of positions:
/// a later row, or a further column of the same row, sits at or after an
/// earlier one, clamping included.
pub proof fn lemma_offset_at_pos_mono(s: Seq<char>, p: PosM, q: PosM)
    requires
        pos_le(p, q),
        0 <= p.row,
        0 <= p.col,
    ensures
        offset_at_spec(s, p) <= offset_at_spec(s, q),
{
    lemma_line_starts_sorted(s);
    let lo = line_starts(s);
    if p.row >= lo.len() {
        // q.row >= p.row >= the table: both clamp to the end of the text
    } else if q.row >= lo.len() {
        // offset(q) is the text length; offset(p) stays within p's row range
        if p.row + 1 < lo.len() {
            assert(offset_at_spec(s, p) <= lo[p.row + 1]);
        }
    } else if q.row == p.row {
        // same row: the clamp is monotone in the column
        if p.row + 1 < lo.len() {
            assert(lo[p.row] < lo[p.row + 1]);
        }
    } else {
        // p.row < q.row: p's range ends at the next line start, which is at
        // or before q's line start, where q's range begins
        assert(p.row + 1 <= q.row);
        lemma_line_starts_mono(s, p.row + 1, q.row);
        assert(offset_at_spec(s, p) <= lo[p.row + 1]);
        assert(offset_at_spec(s, q) >= lo[q.row]);
    }
}

} // verus!
