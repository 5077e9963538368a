use vstd::prelude::*;

use crate::rich_text::{
    char_height, char_width, find_link, ids_unique, lemma_store_lookup, merge_links, push_char, store_map,
    tag_count, LinkEntry, LinkId, RichChar, RichText,
};

verus! {

#[derive(Clone, Copy, Debug, PartialEq, Eq, Structural, Hash)]
pub enum TextJustification {
    Left,
    Center,
    Right,
}

/// Sum of the pixel widths of the characters.
pub open spec fn seq_width(s: Seq<RichChar>) -> nat
    decreases s.len(),
{
    if s.len() == 0 {
        0
    } else {
        seq_width(s.drop_last()) + char_width(s.last())
    }
}

/// Largest cell height among the characters; zero for none.
pub open spec fn seq_height(s: Seq<RichChar>) -> nat
    decreases s.len(),
{
    if s.len() == 0 {
        0
    } else {
        let h = seq_height(s.drop_last());
        if char_height(s.last()) > h {
            char_height(s.last())
        } else {
            h
        }
    }
}

/// Largest baseline offset among the characters' fonts; zero for none.
pub open spec fn seq_base(s: Seq<RichChar>) -> nat
    decreases s.len(),
{
    if s.len() == 0 {
        0
    } else {
        let b = seq_base(s.drop_last());
        if s.last().font.base_y as nat > b {
            s.last().font.base_y as nat
        } else {
            b
        }
    }
}

/// Horizontal offset of a line of width `line_w` in a box of width `max_w`;
/// a line wider than the box starts at its left edge.
pub open spec fn justify_offset(justif: TextJustification, max_w: nat, line_w: nat) -> nat {
    if line_w >= max_w {
        0
    } else {
        match justif {
            TextJustification::Left => 0,
            TextJustification::Center => ((max_w - line_w) / 2) as nat,
            TextJustification::Right => (max_w - line_w) as nat,
        }
    }
}

/// End (exclusive) of the line that holds `s[i - 1]` as its last character so
/// far, with `x` the width taken: a line closes after a newline, at the end of
/// the text, or where the next character would overflow `max_w`.
pub open spec fn line_end_from(s: Seq<RichChar>, i: int, x: nat, max_w: nat) -> int
    decreases s.len() - i,
{
    if i >= s.len() || i <= 0 || s[i - 1].c == '\n' || x + char_width(s[i]) > max_w {
        i
    } else {
        line_end_from(s, i + 1, x + char_width(s[i]), max_w)
    }
}

/// End (exclusive) of the line starting at `start`: its first character is
/// always taken, even when wider than `max_w`.
pub open spec fn line_end(s: Seq<RichChar>, start: int, max_w: nat) -> int {
    line_end_from(s, start + 1, char_width(s[start]), max_w)
}

/// Bounds (start, end) of the lines from `start` on.
pub open spec fn line_bounds_from(s: Seq<RichChar>, start: int, max_w: nat) -> Seq<(int, int)>
    decreases s.len() - start,
{
    if start < 0 || start >= s.len() {
        seq![]
    } else {
        let e = line_end(s, start, max_w);
        if e <= start || e > s.len() {
            seq![]
        } else {
            seq![(start, e)] + line_bounds_from(s, e, max_w)
        }
    }
}

/// Bounds (start, end) of the lines that `s` wraps into at width `max_w`.
pub open spec fn line_bounds(s: Seq<RichChar>, max_w: nat) -> Seq<(int, int)> {
    line_bounds_from(s, 0, max_w)
}

/// The characters of each line that `s` wraps into at width `max_w`.
pub open spec fn wrap_lines(s: Seq<RichChar>, max_w: nat) -> Seq<Seq<RichChar>> {
    line_bounds(s, max_w).map_values(|b: (int, int)| s.subrange(b.0, b.1))
}

/// Sum of the heights of the lines of `s` cut at `bounds`.
pub open spec fn bounds_height(s: Seq<RichChar>, bounds: Seq<(int, int)>) -> nat
    decreases bounds.len(),
{
    if bounds.len() == 0 {
        0
    } else {
        bounds_height(s, bounds.drop_last()) + seq_height(s.subrange(bounds.last().0, bounds.last().1))
    }
}

/// The total height of the layout of `s` at width `max_w` fits in 32 bits.
pub open spec fn lines_height_bound(s: Seq<RichChar>, max_w: nat) -> bool {
    bounds_height(s, line_bounds(s, max_w)) <= u32::MAX
}

/// One line of a layout, with its metrics.
pub struct FormattedRichLine {
    pub chars: Vec<RichChar>,
    pub w: u32,
    pub h: u32,
    pub base_y: u32,
    pub x_offset: u32,
}

/// A buffer laid out in lines at a fixed width.
pub struct FormattedRichText {
    pub lines: Vec<FormattedRichLine>,
    pub w: u32,
    pub h: u32,
    pub justif: TextJustification,
    pub link_store: Vec<LinkEntry>,
}

/// The characters of each line.
pub open spec fn lines_chars(lines: Seq<FormattedRichLine>) -> Seq<Seq<RichChar>> {
    lines.map_values(|l: FormattedRichLine| l.chars@)
}

/// Sum of the heights of the lines.
pub open spec fn lines_height(lines: Seq<FormattedRichLine>) -> nat
    decreases lines.len(),
{
    if lines.len() == 0 {
        0
    } else {
        lines_height(lines.drop_last()) + lines.last().h as nat
    }
}

/// Number of characters over all the lines.
pub open spec fn lines_count(lines: Seq<FormattedRichLine>) -> nat
    decreases lines.len(),
{
    if lines.len() == 0 {
        0
    } else {
        lines_count(lines.drop_last()) + lines.last().chars@.len()
    }
}

/// Number of characters in the lines before line `k`.
pub open spec fn chars_before(lines: Seq<FormattedRichLine>, k: int) -> nat {
    lines_count(lines.subrange(0, k))
}

/// Height of the lines before line `k`: the top of line `k`.
pub open spec fn height_before(lines: Seq<FormattedRichLine>, k: int) -> nat {
    lines_height(lines.subrange(0, k))
}

/// The line holding character `index`, from line `k` on, and the character's
/// position in that line.
pub open spec fn locate_from(lines: Seq<FormattedRichLine>, k: int, index: int) -> Option<(int, int)>
    decreases lines.len() - k,
{
    if k < 0 || k >= lines.len() {
        None
    } else if index < chars_before(lines, k + 1) {
        Some((k, index - chars_before(lines, k)))
    } else {
        locate_from(lines, k + 1, index)
    }
}

pub open spec fn locate(lines: Seq<FormattedRichLine>, index: int) -> Option<(int, int)> {
    locate_from(lines, 0, index)
}

/// The character at `index`, counted over all the lines.
pub open spec fn char_at(lines: Seq<FormattedRichLine>, index: int) -> RichChar {
    match locate(lines, index) {
        Some((k, j)) => lines[k].chars@[j],
        None => arbitrary(),
    }
}

/// Position (x, y) and height of a cursor before character `j` of line `k`:
/// x past the characters before it, y at the top of the line, and the height
/// of the character at the cursor, or of the one before it at the line's end.
pub open spec fn pos_in_line(lines: Seq<FormattedRichLine>, k: int, j: int) -> (int, int, nat) {
    let line = lines[k];
    let rc = if j < line.chars@.len() { line.chars@[j] } else { line.chars@[j - 1] };
    (line.x_offset + seq_width(line.chars@.subrange(0, j)), height_before(lines, k) as int, rc.font.char_h as nat)
}

/// Leftmost character of a line whose right edge reaches `dx` pixels from the
/// line's start, searching from character `i`; the line's length if none does.
pub open spec fn first_reaching_from(chars: Seq<RichChar>, i: int, dx: int) -> int
    decreases chars.len() - i,
{
    if i < 0 || i >= chars.len() {
        chars.len() as int
    } else if dx <= seq_width(chars.subrange(0, i + 1)) {
        i
    } else {
        first_reaching_from(chars, i + 1, dx)
    }
}

/// Index of the character under (xp, yp), searching from line `k` on: the
/// first line whose vertical band holds the point, and in it the first
/// character whose right edge reaches the point; none when no character of
/// that line does.
pub open spec fn line_hit_from(lines: Seq<FormattedRichLine>, k: int, xp: int, yp: int) -> Option<int>
    decreases lines.len() - k,
{
    if k < 0 || k >= lines.len() {
        None
    } else {
        let line = lines[k];
        let y0 = height_before(lines, k);
        if y0 <= yp < y0 + line.h {
            let i = first_reaching_from(line.chars@, 0, xp - line.x_offset);
            if i < line.chars@.len() {
                Some(chars_before(lines, k) + i)
            } else {
                None
            }
        } else {
            line_hit_from(lines, k + 1, xp, yp)
        }
    }
}

/// Horizontal extent, from the line's start, of the characters of a line that
/// carry link `id`: from the left edge of the first to the right edge of the last.
pub open spec fn underline_of(chars: Seq<RichChar>, id: u64) -> Option<(nat, nat)>
    decreases chars.len(),
{
    if chars.len() == 0 {
        None
    } else {
        let prev = underline_of(chars.drop_last(), id);
        let left = seq_width(chars.drop_last());
        let right = left + char_width(chars.last());
        if chars.last().link_id == Some(LinkId(id)) {
            match prev {
                Some((x0, _)) => Some((x0, right)),
                None => Some((left, right)),
            }
        } else {
            prev
        }
    }
}

/// Gap in pixels between a line's baseline and its underline.
pub const UNDERLINE_GAP: u32 = 2;

/// Underlines (y, x0, x1) of link `id`: one for each line that holds a
/// character carrying it, below the line's baseline.
pub open spec fn underlines(lines: Seq<FormattedRichLine>, id: u64) -> Seq<(int, int, int)>
    decreases lines.len(),
{
    if lines.len() == 0 {
        seq![]
    } else {
        let l = lines.last();
        underlines(lines.drop_last(), id) + match underline_of(l.chars@, id) {
            Some((a, b)) => seq![
                (lines_height(lines.drop_last()) + UNDERLINE_GAP + l.base_y, l.x_offset + a, l.x_offset + b),
            ],
            None => seq![],
        }
    }
}

pub open spec fn underline_view(v: Seq<(i64, i64, i64)>) -> Seq<(int, int, int)> {
    v.map_values(|t: (i64, i64, i64)| (t.0 as int, t.1 as int, t.2 as int))
}

/// A line's metrics are those of its characters, and it holds at least one.
pub open spec fn line_ok(l: FormattedRichLine, max_w: nat, justif: TextJustification) -> bool {
    &&& l.chars@.len() > 0
    &&& l.w as nat == seq_width(l.chars@)
    &&& l.h as nat == seq_height(l.chars@)
    &&& l.base_y as nat == seq_base(l.chars@)
    &&& l.x_offset as nat == justify_offset(justif, max_w, l.w as nat)
}

impl FormattedRichText {
    pub open spec fn wf(&self) -> bool {
        &&& forall|k: int| 0 <= k < self.lines@.len() ==> line_ok(#[trigger] self.lines@[k], self.w as nat, self.justif)
        &&& self.h as nat == lines_height(self.lines@)
        &&& lines_count(self.lines@) <= usize::MAX
        &&& ids_unique(self.link_store@)
    }

    /// Position (x, y) and height of a cursor before character `index`.
    pub open spec fn index_to_xy_spec(&self, index: int) -> (int, int, nat) {
        let lines = self.lines@;
        if lines.len() == 0 {
            (0, 0, 0)
        } else {
            match locate(lines, index) {
                Some((k, j)) => pos_in_line(lines, k, j),
                None => if lines.last().chars@.last().c == '\n' {
                    let x = match self.justif {
                        TextJustification::Left => 0int,
                        TextJustification::Center => self.w as int / 2,
                        TextJustification::Right => self.w as int,
                    };
                    (x, self.h as int, lines.last().h as nat)
                } else {
                    pos_in_line(lines, lines.len() - 1, lines.last().chars@.len() as int)
                },
            }
        }
    }

    /// Index of the character under (xp, yp); none outside the layout's box.
    pub open spec fn xy_to_index_spec(&self, xp: int, yp: int) -> Option<int> {
        if xp < 0 || xp >= self.w || yp < 0 || yp >= self.h {
            None
        } else {
            line_hit_from(self.lines@, 0, xp, yp)
        }
    }

    /// The link registry of the text laid out.
    pub open spec fn links(&self) -> Map<u64, (nat, Seq<char>)> {
        store_map(self.link_store@)
    }
}

impl FormattedRichLine {
    /// The plain characters of the line.
    pub fn to_string(&self) -> (r: String)
        ensures
            r@ == self.chars@.map_values(|rc: RichChar| rc.c),
    {
        let mut r = String::new();
        let n = self.chars.len();
        let mut i: usize = 0;
        while i < n
            invariant
                n == self.chars@.len(),
                i <= n,
                r@ == self.chars@.subrange(0, i as int).map_values(|rc: RichChar| rc.c),
            decreases n - i,
        {
            push_char(&mut r, self.chars[i].c);
            assert(self.chars@.subrange(0, i + 1).map_values(|rc: RichChar| rc.c) =~= self.chars@.subrange(
                0,
                i as int,
            ).map_values(|rc: RichChar| rc.c).push(self.chars@[i as int].c));
            i = i + 1;
        }
        assert(self.chars@.subrange(0, n as int) =~= self.chars@);
        r
    }
}

impl FormattedRichText {
    /// The line holding character `index` and the character's position in it.
    fn locate_exec(&self, index: usize) -> (r: Option<(usize, usize)>)
        ensures
            r matches Some((k, j)) ==> locate(self.lines@, index as int) == Some((k as int, j as int)) && k
                < self.lines@.len() && j < self.lines@[k as int].chars@.len() && chars_before(self.lines@, k as int)
                + j == index,
            r is None ==> locate(self.lines@, index as int) is None && index >= lines_count(self.lines@),
    {
        let n = self.lines.len();
        let mut k: usize = 0;
        let mut i: usize = 0;
        assert(self.lines@.subrange(0, 0) =~= Seq::<FormattedRichLine>::empty());
        while k < n
            invariant
                n == self.lines@.len(),
                k <= n,
                i == chars_before(self.lines@, k as int),
                i <= index,
                locate(self.lines@, index as int) == locate_from(self.lines@, k as int, index as int),
            decreases n - k,
        {
            let len = self.lines[k].chars.len();
            proof {
                lemma_prefix_step(self.lines@, k as int);
            }
            if index - i < len {
                return Some((k, index - i));
            }
            i = i + len;
            k = k + 1;
        }
        assert(self.lines@.subrange(0, n as int) =~= self.lines@);
        None
    }

    /// Number of characters over all the lines.
    pub fn total_len(&self) -> (n: usize)
        requires
            self.wf(),
        ensures
            n == lines_count(self.lines@),
    {
        let n = self.lines.len();
        let mut k: usize = 0;
        let mut total: usize = 0;
        assert(self.lines@.subrange(0, 0) =~= Seq::<FormattedRichLine>::empty());
        while k < n
            invariant
                self.wf(),
                n == self.lines@.len(),
                k <= n,
                total == chars_before(self.lines@, k as int),
            decreases n - k,
        {
            proof {
                lemma_prefix_step(self.lines@, k as int);
                lemma_prefix_bound(self.lines@, k + 1);
            }
            total = total + self.lines[k].chars.len();
            k = k + 1;
        }
        assert(self.lines@.subrange(0, n as int) =~= self.lines@);
        total
    }

    /// The character at `index`, counted over all the lines.
    pub fn get_char(&self, index: usize) -> (r: &RichChar)
        requires
            index < lines_count(self.lines@),
        ensures
            *r == char_at(self.lines@, index as int),
    {
        match self.locate_exec(index) {
            Some((k, j)) => &self.lines[k].chars[j],
            None => {
                assert(false);
                &self.lines[0].chars[0]
            },
        }
    }

    /// Cursor position before character `index`: (x, y) of its top-left corner
    /// and its height.
    pub fn index_to_xy(&self, index: usize) -> (r: (i64, i64, u32))
        requires
            self.wf(),
            index <= lines_count(self.lines@),
        ensures
            (r.0 as int, r.1 as int, r.2 as nat) == self.index_to_xy_spec(index as int),
    {
        let n = self.lines.len();
        if n == 0 {
            return (0, 0, 0);
        }
        let (k, j) = match self.locate_exec(index) {
            Some((k, j)) => (k, j),
            None => {
                let last = &self.lines[n - 1];
                let m = last.chars.len();
                assert(line_ok(self.lines@[n - 1], self.w as nat, self.justif));
                if last.chars[m - 1].c == '\n' {
                    let x: u32 = match self.justif {
                        TextJustification::Left => 0,
                        TextJustification::Center => self.w / 2,
                        TextJustification::Right => self.w,
                    };
                    return (x as i64, self.h as i64, last.h);
                }
                (n - 1, m)
            },
        };
        let line = &self.lines[k];
        assert(line_ok(self.lines@[k as int], self.w as nat, self.justif));
        // Width of the characters before `j`.
        let mut x: u64 = 0;
        let mut i: usize = 0;
        proof {
            assert(line.chars@.subrange(0, 0) =~= Seq::<RichChar>::empty());
            lemma_width_prefix(line.chars@, j as int);
        }
        while i < j
            invariant
                j <= line.chars@.len(),
                i <= j,
                x == seq_width(line.chars@.subrange(0, i as int)),
                seq_width(line.chars@.subrange(0, j as int)) <= seq_width(line.chars@),
                seq_width(line.chars@) == line.w,
            decreases j - i,
        {
            proof {
                assert(line.chars@.subrange(0, i + 1) =~= line.chars@.subrange(0, i as int).push(line.chars@[i as int]));
                lemma_seq_width_push(line.chars@.subrange(0, i as int), line.chars@[i as int]);
                lemma_width_prefix(line.chars@.subrange(0, j as int), i + 1);
                assert(line.chars@.subrange(0, j as int).subrange(0, i + 1) =~= line.chars@.subrange(0, i + 1));
            }
            x = x + line.chars[i].width() as u64;
            i = i + 1;
        }
        // Height of the lines above.
        let mut y: u64 = 0;
        let mut q: usize = 0;
        assert(self.lines@.subrange(0, 0) =~= Seq::<FormattedRichLine>::empty());
        proof {
            lemma_prefix_bound(self.lines@, k as int);
        }
        while q < k
            invariant
                k < self.lines@.len(),
                q <= k,
                y == height_before(self.lines@, q as int),
                height_before(self.lines@, k as int) <= lines_height(self.lines@),
                lines_height(self.lines@) == self.h,
            decreases k - q,
        {
            proof {
                lemma_prefix_step(self.lines@, q as int);
                lemma_prefix_bound(self.lines@.subrange(0, k as int), q + 1);
                assert(self.lines@.subrange(0, k as int).subrange(0, q + 1) =~= self.lines@.subrange(0, q + 1));
            }
            y = y + self.lines[q].h as u64;
            q = q + 1;
        }
        let rc = if j < line.chars.len() {
            &line.chars[j]
        } else {
            &line.chars[j - 1]
        };
        let x_total = x + line.x_offset as u64;
        let y_total = y;
        (x_total as i64, y_total as i64, rc.font.char_h)
    }

    /// Index of the character under the point (x, y); none when the point is
    /// outside the layout's box or beside every line.
    #[verifier::loop_isolation(false)]
    pub fn xy_to_index(&self, xy: (i64, i64)) -> (r: Option<usize>)
        requires
            self.wf(),
        ensures
            r is None <==> self.xy_to_index_spec(xy.0 as int, xy.1 as int) is None,
            r matches Some(i) ==> self.xy_to_index_spec(xy.0 as int, xy.1 as int) == Some(i as int),
            r matches Some(i) ==> i < lines_count(self.lines@),
    {
        let (xp, yp) = xy;
        if xp < 0 || xp >= self.w as i64 || yp < 0 || yp >= self.h as i64 {
            return None;
        }
        let n = self.lines.len();
        let mut k: usize = 0;
        let mut index: usize = 0;
        let mut y: u64 = 0;
        assert(self.lines@.subrange(0, 0) =~= Seq::<FormattedRichLine>::empty());
        while k < n
            invariant
                self.wf(),
                n == self.lines@.len(),
                k <= n,
                0 <= xp < self.w,
                0 <= yp < self.h,
                index == chars_before(self.lines@, k as int),
                y == height_before(self.lines@, k as int),
                line_hit_from(self.lines@, 0, xp as int, yp as int) == line_hit_from(self.lines@, k as int, xp as int, yp as int),
            decreases n - k,
        {
            let line = &self.lines[k];
            proof {
                lemma_prefix_step(self.lines@, k as int);
                lemma_prefix_bound(self.lines@, k + 1);
                assert(line_ok(self.lines@[k as int], self.w as nat, self.justif));
            }
            let x0 = line.x_offset as i64;
            if y as i64 <= yp && yp < y as i64 + line.h as i64 {
                let dx = xp - x0;
                let m = line.chars.len();
                let mut i: usize = 0;
                let mut x: i64 = 0;
                assert(line.chars@.subrange(0, 0) =~= Seq::<RichChar>::empty());
                while i < m
                    invariant
                        m == line.chars@.len(),
                        i <= m,
                        x == seq_width(line.chars@.subrange(0, i as int)),
                        seq_width(line.chars@) == line.w,
                        line.w <= u32::MAX,
                        dx == xp - line.x_offset,
                        index + m <= usize::MAX,
                        index == chars_before(self.lines@, k as int),
                        first_reaching_from(line.chars@, 0, dx as int) == first_reaching_from(line.chars@, i as int, dx as int),
                    decreases m - i,
                {
                    proof {
                        assert(line.chars@.subrange(0, i + 1) =~= line.chars@.subrange(0, i as int).push(line.chars@[i as int]));
                        lemma_seq_width_push(line.chars@.subrange(0, i as int), line.chars@[i as int]);
                        lemma_width_prefix(line.chars@, i + 1);
                    }
                    let w = line.chars[i].width() as i64;
                    if dx <= x + w {
                        assert(first_reaching_from(line.chars@, i as int, dx as int) == i);
                        assert(line_hit_from(self.lines@, k as int, xp as int, yp as int) == Some(index + i));
                        assert(self.xy_to_index_spec(xp as int, yp as int) == Some(index + i));
                        assert(index + i < lines_count(self.lines@));
                        return Some(index + i);
                    }
                    x = x + w;
                    i = i + 1;
                }
                assert(first_reaching_from(line.chars@, m as int, dx as int) == m);
                return None;
            }
            y = y + line.h as u64;
            index = index + line.chars.len();
            k = k + 1;
        }
        None
    }

    /// Whether any character of the text carries a link.
    pub fn has_link(&self) -> (r: bool)
        requires
            self.wf(),
        ensures
            r == exists|id: u64| self.links().contains_key(id),
    {
        if self.link_store.len() > 0 {
            proof {
                lemma_store_lookup(self.link_store@, 0);
                assert(self.links().contains_key(self.link_store@[0].id.0));
            }
            true
        } else {
            assert forall|id: u64| !self.links().contains_key(id) by {}
            false
        }
    }

    /// The URL of the link carried by character `index`, with the underlines
    /// (y, x0, x1) of every line holding that link; none when the character
    /// carries no registered link.
    #[verifier::loop_isolation(false)]
    pub fn get_link(&self, index: usize) -> (r: Option<(&str, Vec<(i64, i64, i64)>)>)
        requires
            self.wf(),
            index < lines_count(self.lines@),
        ensures
            match char_at(self.lines@, index as int).link_id {
                Some(id) => if self.links().contains_key(id.0) {
                    r matches Some((url, ul)) && url@ == self.links()[id.0].1 && underline_view(ul@)
                        == underlines(self.lines@, id.0)
                } else {
                    r is None
                },
                None => r is None,
            },
    {
        let rc = self.get_char(index);
        let link_id = match rc.link_id {
            Some(id) => id,
            None => return None,
        };
        let e = match find_link(&self.link_store, link_id) {
            Some(e) => e,
            None => return None,
        };
        proof {
            lemma_store_lookup(self.link_store@, e as int);
        }
        let url = self.link_store[e].url.as_str();
        let mut ul: Vec<(i64, i64, i64)> = Vec::new();
        let n = self.lines.len();
        let mut k: usize = 0;
        let mut y: u64 = 0;
        assert(self.lines@.subrange(0, 0) =~= Seq::<FormattedRichLine>::empty());
        assert(underline_view(ul@) =~= seq![]);
        while k < n
            invariant
                self.wf(),
                n == self.lines@.len(),
                k <= n,
                y == height_before(self.lines@, k as int),
                underline_view(ul@) == underlines(self.lines@.subrange(0, k as int), link_id.0),
            decreases n - k,
        {
            let line = &self.lines[k];
            proof {
                lemma_prefix_step(self.lines@, k as int);
                lemma_prefix_bound(self.lines@, k + 1);
                assert(line_ok(self.lines@[k as int], self.w as nat, self.justif));
            }
            let m = line.chars.len();
            let mut i: usize = 0;
            let mut x: u64 = 0;
            let mut extent: Option<(u64, u64)> = None;
            assert(line.chars@.subrange(0, 0) =~= Seq::<RichChar>::empty());
            while i < m
                invariant
                    m == line.chars@.len(),
                    i <= m,
                    x == seq_width(line.chars@.subrange(0, i as int)),
                    seq_width(line.chars@) == line.w,
                    line.w <= u32::MAX,
                    match underline_of(line.chars@.subrange(0, i as int), link_id.0) {
                        Some((a, b)) => extent == Some((a as u64, b as u64)),
                        None => extent is None,
                    },
                    extent matches Some((a, b)) ==> a <= b <= x,
                decreases m - i,
            {
                let ghost pre = line.chars@.subrange(0, i as int);
                proof {
                    lemma_underline_bound(pre, link_id.0);
                    assert(line.chars@.subrange(0, i + 1) =~= pre.push(line.chars@[i as int]));
                    assert(line.chars@.subrange(0, i + 1).drop_last() =~= pre);
                    lemma_seq_width_push(pre, line.chars@[i as int]);
                    lemma_width_prefix(line.chars@, i + 1);
                }
                let c = &line.chars[i];
                let right = x + c.width() as u64;
                if c.link_id == Some(link_id) {
                    extent = match extent {
                        Some((x0, _)) => Some((x0, right)),
                        None => Some((x, right)),
                    };
                }
                x = right;
                i = i + 1;
            }
            assert(line.chars@.subrange(0, m as int) =~= line.chars@);
            proof {
                lemma_underline_bound(line.chars@, link_id.0);
            }
            let ghost before = ul@;
            let ghost sub = self.lines@.subrange(0, k + 1);
            proof {
                assert(sub.drop_last() =~= self.lines@.subrange(0, k as int));
                assert(sub.last() == self.lines@[k as int]);
            }
            match extent {
                Some((x0, x1)) => {
                    let off = line.x_offset as u64;
                    ul.push((
                        (y + UNDERLINE_GAP as u64 + line.base_y as u64) as i64,
                        (off + x0) as i64,
                        (off + x1) as i64,
                    ));
                },
                None => {},
            }
            proof {
                let expect = underlines(sub, link_id.0);
                assert(expect == underlines(self.lines@.subrange(0, k as int), link_id.0) + match underline_of(
                    line.chars@,
                    link_id.0,
                ) {
                    Some((a, b)) => seq![
                        (y as int + UNDERLINE_GAP + line.base_y, line.x_offset + a, line.x_offset + b),
                    ],
                    None => seq![],
                });
                match extent {
                    Some((x0, x1)) => {
                        assert(ul@ == before.push(ul@.last()));
                        assert(underline_view(ul@) =~= underline_view(before).push(
                            (ul@.last().0 as int, ul@.last().1 as int, ul@.last().2 as int),
                        ));
                    },
                    None => {},
                }
                assert(underline_view(ul@) =~= expect);
            }
            y = y + line.h as u64;
            k = k + 1;
        }
        assert(self.lines@.subrange(0, n as int) =~= self.lines@);
        Some((url, ul))
    }
}

/// Every line of the wrap of `s` at `max_w` is at most `max_w` pixels wide,
/// or holds a single character, which is then placed rather than dropped;
/// when every character fits in `max_w`, every line does.
pub proof fn lemma_wrap_fits(s: Seq<RichChar>, max_w: nat)
    ensures
        forall|k: int| 0 <= k < wrap_lines(s, max_w).len() ==> seq_width(#[trigger] wrap_lines(s, max_w)[k]) <= max_w
            || wrap_lines(s, max_w)[k].len() == 1,
        (forall|i: int| 0 <= i < s.len() ==> char_width(#[trigger] s[i]) <= max_w) ==> forall|k: int|
            0 <= k < wrap_lines(s, max_w).len() ==> seq_width(#[trigger] wrap_lines(s, max_w)[k]) <= max_w,
{
    let bounds = line_bounds(s, max_w);
    lemma_line_bounds_from(s, 0, max_w);
    assert forall|k: int| 0 <= k < wrap_lines(s, max_w).len() implies seq_width(#[trigger] wrap_lines(s, max_w)[k])
        <= max_w || wrap_lines(s, max_w)[k].len() == 1 by {
        let b = bounds[k];
        lemma_line_end(s, b.0, max_w);
    }
    if forall|i: int| 0 <= i < s.len() ==> char_width(#[trigger] s[i]) <= max_w {
        assert forall|k: int| 0 <= k < wrap_lines(s, max_w).len() implies seq_width(#[trigger] wrap_lines(s, max_w)[k])
            <= max_w by {
            let b = bounds[k];
            lemma_line_end(s, b.0, max_w);
            let l = s.subrange(b.0, b.1);
            if l.len() == 1 {
                assert(l =~= Seq::<RichChar>::empty().push(s[b.0]));
                lemma_seq_width_push(Seq::<RichChar>::empty(), s[b.0]);
            }
        }
    }
}

/// Every character of the wrap of `s` is a character of `s`.
pub proof fn lemma_wrap_chars(s: Seq<RichChar>, max_w: nat, k: int, i: int)
    requires
        0 <= k < wrap_lines(s, max_w).len(),
        0 <= i < wrap_lines(s, max_w)[k].len(),
    ensures
        exists|j: int| 0 <= j < s.len() && s[j] == wrap_lines(s, max_w)[k][i],
{
    lemma_line_bounds_from(s, 0, max_w);
    let b = line_bounds(s, max_w)[k];
    assert(s[b.0 + i] == wrap_lines(s, max_w)[k][i]);
}

proof fn lemma_lines_height_same(a: Seq<FormattedRichLine>, b: Seq<FormattedRichLine>)
    requires
        a.len() == b.len(),
        forall|k: int| 0 <= k < a.len() ==> (#[trigger] a[k]).h == b[k].h,
    ensures
        lines_height(a) == lines_height(b),
    decreases a.len(),
{
    if a.len() > 0 {
        lemma_lines_height_same(a.drop_last(), b.drop_last());
    }
}

/// A layout is determined by the characters of its lines: two well-formed
/// layouts at one width and justification with the same lines have the same
/// line metrics and height.
pub proof fn lemma_layout_determined(f1: FormattedRichText, f2: FormattedRichText)
    requires
        f1.wf(),
        f2.wf(),
        f1.w == f2.w,
        f1.justif == f2.justif,
        lines_chars(f1.lines@) == lines_chars(f2.lines@),
    ensures
        f1.lines@.len() == f2.lines@.len(),
        forall|k: int| 0 <= k < f1.lines@.len() ==> {
            let (l1, l2) = (#[trigger] f1.lines@[k], f2.lines@[k]);
            l1.chars@ == l2.chars@ && l1.w == l2.w && l1.h == l2.h && l1.base_y == l2.base_y && l1.x_offset == l2.x_offset
        },
        f1.h == f2.h,
{
    assert(lines_chars(f1.lines@).len() == f1.lines@.len());
    assert forall|k: int| 0 <= k < f1.lines@.len() implies (#[trigger] f1.lines@[k]).h == f2.lines@[k].h && f1.lines@[k].chars@
        == f2.lines@[k].chars@ by {
        assert(lines_chars(f1.lines@)[k] == lines_chars(f2.lines@)[k]);
        assert(line_ok(f1.lines@[k], f1.w as nat, f1.justif));
        assert(line_ok(f2.lines@[k], f2.w as nat, f2.justif));
    }
    assert forall|k: int| 0 <= k < f1.lines@.len() implies {
        let (l1, l2) = (#[trigger] f1.lines@[k], f2.lines@[k]);
        l1.chars@ == l2.chars@ && l1.w == l2.w && l1.h == l2.h && l1.base_y == l2.base_y && l1.x_offset == l2.x_offset
    } by {
        assert(line_ok(f1.lines@[k], f1.w as nat, f1.justif));
        assert(line_ok(f2.lines@[k], f2.w as nat, f2.justif));
    }
    lemma_lines_height_same(f1.lines@, f2.lines@);
}

/// Concatenating an empty buffer is a no-op: the characters, the link
/// registry, and the layout at any width stay as they were.
pub proof fn lemma_concat_empty(before: RichText, empty: RichText, after: RichText, max_w: nat)
    requires
        before.inv(),
        empty.inv(),
        empty.text().len() == 0,
        after.text() == before.text() + empty.text(),
        after.links() == merge_links(before.links(), empty.links()),
    ensures
        after.text() == before.text(),
        after.links() == before.links(),
        wrap_lines(after.text(), max_w) == wrap_lines(before.text(), max_w),
        bounds_height(after.text(), line_bounds(after.text(), max_w)) == bounds_height(
            before.text(),
            line_bounds(before.text(), max_w),
        ),
        lines_height_bound(after.text(), max_w) == lines_height_bound(before.text(), max_w),
{
    assert(before.text() + empty.text() =~= before.text());
    assert forall|id: u64| !empty.links().contains_key(id) by {
        assert(tag_count(empty.text(), id) == 0);
    }
    assert(merge_links(before.links(), empty.links()) =~= before.links());
}

proof fn lemma_before_mono(lines: Seq<FormattedRichLine>, a: int, b: int)
    requires
        0 <= a <= b <= lines.len(),
    ensures
        chars_before(lines, a) <= chars_before(lines, b),
        height_before(lines, a) <= height_before(lines, b),
    decreases b - a,
{
    if a < b {
        lemma_before_mono(lines, a, b - 1);
        lemma_prefix_step(lines, b - 1);
    }
}

proof fn lemma_locate_line_start(lines: Seq<FormattedRichLine>, m: int, k: int)
    requires
        0 <= m <= k < lines.len(),
        lines[k].chars@.len() > 0,
    ensures
        locate_from(lines, m, chars_before(lines, k) as int) == Some((k, 0int)),
    decreases k - m,
{
    lemma_prefix_step(lines, m);
    if m < k {
        lemma_before_mono(lines, m + 1, k);
        lemma_locate_line_start(lines, m + 1, k);
    }
}

proof fn lemma_hit_skips_lines_above(lines: Seq<FormattedRichLine>, m: int, k: int, xp: int, yp: int)
    requires
        0 <= m <= k < lines.len(),
        height_before(lines, k) <= yp,
    ensures
        line_hit_from(lines, m, xp, yp) == line_hit_from(lines, k, xp, yp),
    decreases k - m,
{
    if m < k {
        lemma_prefix_step(lines, m);
        lemma_before_mono(lines, m + 1, k);
        lemma_hit_skips_lines_above(lines, m + 1, k, xp, yp);
    }
}

/// A cursor placed at the start of a line maps back to the same index, for
/// any justification: `xy_to_index` at the point `index_to_xy` gives for the
/// line's first character returns that character. The line must have a
/// positive width and height.
pub proof fn lemma_line_start_round_trip(t: FormattedRichText, k: int)
    requires
        t.wf(),
        t.w > 0,
        0 <= k < t.lines@.len(),
        t.lines@[k].w > 0,
        t.lines@[k].h > 0,
    ensures
        ({
            let index = chars_before(t.lines@, k) as int;
            let p = t.index_to_xy_spec(index);
            t.xy_to_index_spec(p.0, p.1) == Some(index)
        }),
{
    let lines = t.lines@;
    let index = chars_before(lines, k) as int;
    let line = lines[k];
    assert(line_ok(lines[k], t.w as nat, t.justif));
    lemma_locate_line_start(lines, 0, k);
    assert(line.chars@.subrange(0, 0) =~= Seq::<RichChar>::empty());
    let p = t.index_to_xy_spec(index);
    assert(p.0 == line.x_offset);
    assert(p.1 == height_before(lines, k));
    lemma_prefix_step(lines, k);
    lemma_prefix_bound(lines, k + 1);
    assert(p.1 < t.h);
    assert(p.0 < t.w);
    lemma_hit_skips_lines_above(lines, 0, k, p.0, p.1);
    assert(line.chars@.subrange(0, 1) =~= Seq::<RichChar>::empty().push(line.chars@[0]));
    lemma_seq_width_push(Seq::<RichChar>::empty(), line.chars@[0]);
    assert(first_reaching_from(line.chars@, 0, 0) == 0);
}

pub proof fn lemma_seq_width_push(s: Seq<RichChar>, c: RichChar)
    ensures
        seq_width(s.push(c)) == seq_width(s) + char_width(c),
        seq_height(s.push(c)) == if char_height(c) > seq_height(s) { char_height(c) } else { seq_height(s) },
        seq_base(s.push(c)) == if c.font.base_y as nat > seq_base(s) { c.font.base_y as nat } else { seq_base(s) },
{
    assert(s.push(c).drop_last() =~= s);
}

proof fn lemma_lines_height_push(lines: Seq<FormattedRichLine>, l: FormattedRichLine)
    ensures
        lines_height(lines.push(l)) == lines_height(lines) + l.h,
        lines_count(lines.push(l)) == lines_count(lines) + l.chars@.len(),
{
    assert(lines.push(l).drop_last() =~= lines);
}

pub(crate) proof fn lemma_prefix_step(lines: Seq<FormattedRichLine>, k: int)
    requires
        0 <= k < lines.len(),
    ensures
        chars_before(lines, k + 1) == chars_before(lines, k) + lines[k].chars@.len(),
        height_before(lines, k + 1) == height_before(lines, k) + lines[k].h,
{
    assert(lines.subrange(0, k + 1) =~= lines.subrange(0, k).push(lines[k]));
    lemma_lines_height_push(lines.subrange(0, k), lines[k]);
}

proof fn lemma_prefix_bound(lines: Seq<FormattedRichLine>, k: int)
    requires
        0 <= k <= lines.len(),
    ensures
        chars_before(lines, k) <= lines_count(lines),
        height_before(lines, k) <= lines_height(lines),
    decreases lines.len() - k,
{
    if k < lines.len() {
        lemma_prefix_bound(lines, k + 1);
        lemma_prefix_step(lines, k);
    } else {
        assert(lines.subrange(0, k) =~= lines);
    }
}

proof fn lemma_width_prefix(s: Seq<RichChar>, j: int)
    requires
        0 <= j <= s.len(),
    ensures
        seq_width(s.subrange(0, j)) <= seq_width(s),
    decreases s.len() - j,
{
    if j < s.len() {
        lemma_width_prefix(s, j + 1);
        assert(s.subrange(0, j + 1) =~= s.subrange(0, j).push(s[j]));
        lemma_seq_width_push(s.subrange(0, j), s[j]);
    } else {
        assert(s.subrange(0, j) =~= s);
    }
}

proof fn lemma_underline_bound(s: Seq<RichChar>, id: u64)
    ensures
        underline_of(s, id) matches Some((a, b)) ==> a <= b <= seq_width(s),
    decreases s.len(),
{
    if s.len() > 0 {
        lemma_underline_bound(s.drop_last(), id);
    }
}

/// Only the first character of a line may overflow the width.
proof fn lemma_line_end_from(s: Seq<RichChar>, i: int, x: nat, max_w: nat, start: int)
    requires
        0 <= start < i <= s.len(),
        x == seq_width(s.subrange(start, i)),
        x <= max_w || i == start + 1,
    ensures
        i <= line_end_from(s, i, x, max_w) <= s.len(),
        seq_width(s.subrange(start, line_end_from(s, i, x, max_w))) <= max_w || line_end_from(s, i, x, max_w)
            == start + 1,
    decreases s.len() - i,
{
    if !(i >= s.len() || i <= 0 || s[i - 1].c == '\n' || x + char_width(s[i]) > max_w) {
        assert(s.subrange(start, i + 1) =~= s.subrange(start, i).push(s[i]));
        lemma_seq_width_push(s.subrange(start, i), s[i]);
        lemma_line_end_from(s, i + 1, x + char_width(s[i]), max_w, start);
    }
}

proof fn lemma_line_end(s: Seq<RichChar>, start: int, max_w: nat)
    requires
        0 <= start < s.len(),
    ensures
        start < line_end(s, start, max_w) <= s.len(),
        seq_width(s.subrange(start, line_end(s, start, max_w))) <= max_w || line_end(s, start, max_w) == start + 1,
{
    assert(s.subrange(start, start + 1) =~= Seq::<RichChar>::empty().push(s[start]));
    lemma_seq_width_push(Seq::<RichChar>::empty(), s[start]);
    assert(seq_width(Seq::<RichChar>::empty()) == 0);
    lemma_line_end_from(s, start + 1, char_width(s[start]), max_w, start);
}

/// The bounds of the lines from `start` on: each line holds at least one
/// character, each starts where the previous one ended, and the last one ends
/// with the text.
proof fn lemma_line_bounds_from(s: Seq<RichChar>, start: int, max_w: nat)
    requires
        0 <= start <= s.len(),
    ensures
        forall|k: int| 0 <= k < line_bounds_from(s, start, max_w).len() ==> {
            let b = #[trigger] line_bounds_from(s, start, max_w)[k];
            &&& start <= b.0 < b.1 <= s.len()
            &&& b.1 == line_end(s, b.0, max_w)
        },
    decreases s.len() - start,
{
    if start < s.len() {
        lemma_line_end(s, start, max_w);
        let e = line_end(s, start, max_w);
        lemma_line_bounds_from(s, e, max_w);
        let all = line_bounds_from(s, start, max_w);
        let rest = line_bounds_from(s, e, max_w);
        assert(all == seq![(start, e)] + rest);
        assert forall|k: int| 0 <= k < all.len() implies {
            let b = #[trigger] all[k];
            &&& start <= b.0 < b.1 <= s.len()
            &&& b.1 == line_end(s, b.0, max_w)
        } by {
            if k > 0 {
                assert(all[k] == rest[k - 1]);
            }
        }
    }
}

/// Lays `text` out in lines of at most `max_w` pixels: the text is cut after
/// each newline and wherever the next character would overflow the width; a
/// character wider than `max_w` gets a line of its own. Each line is placed by
/// `justif`, and the layout keeps a copy of the text's link registry.
pub fn format_rich_lines(text: &RichText, max_w: u32, justif: TextJustification) -> (r: FormattedRichText)
    requires
        text.inv(),
        lines_height_bound(text.text(), max_w as nat),
    ensures
        r.wf(),
        r.w == max_w,
        r.justif == justif,
        r.links() == text.links(),
        r.h as nat == bounds_height(text.text(), line_bounds(text.text(), max_w as nat)),
        lines_chars(r.lines@) == wrap_lines(text.text(), max_w as nat),
        forall|k: int| 0 <= k < r.lines@.len() ==> (#[trigger] r.lines@[k]).w <= max_w || r.lines@[k].chars@.len() == 1,
{
    match format_rich_lines_checked(text, max_w, justif) {
        Some(f) => f,
        None => {
            assert(false);
            FormattedRichText { lines: Vec::new(), w: max_w, h: 0, justif, link_store: Vec::new() }
        },
    }
}

/// The layout of `format_rich_lines`, or none when its total height does not
/// fit in 32 bits.
pub fn format_rich_lines_checked(text: &RichText, max_w: u32, justif: TextJustification) -> (r: Option<FormattedRichText>)
    requires
        text.inv(),
    ensures
        r is Some <==> lines_height_bound(text.text(), max_w as nat),
        r matches Some(f) ==> {
            &&& f.wf()
            &&& f.w == max_w
            &&& f.justif == justif
            &&& f.links() == text.links()
            &&& f.h as nat == bounds_height(text.text(), line_bounds(text.text(), max_w as nat))
            &&& lines_chars(f.lines@) == wrap_lines(text.text(), max_w as nat)
            &&& forall|k: int| 0 <= k < f.lines@.len() ==> (#[trigger] f.lines@[k]).w <= max_w || f.lines@[k].chars@.len() == 1
        },
{
    let chars = text.chars_ref();
    let ghost s = chars@;
    let n = chars.len();
    let mut lines: Vec<FormattedRichLine> = Vec::new();
    let mut total_h: u128 = 0;
    let mut start: usize = 0;
    let ghost mut done: Seq<(int, int)> = seq![];
    proof {
        lemma_line_bounds_from(s, 0, max_w as nat);
    }
    while start < n
        invariant
            s == chars@,
            n == s.len(),
            start <= n,
            lines@.len() == done.len(),
            done + line_bounds_from(s, start as int, max_w as nat) == line_bounds(s, max_w as nat),
            forall|k: int| 0 <= k < lines@.len() ==> line_ok(#[trigger] lines@[k], max_w as nat, justif),
            forall|k: int| 0 <= k < lines@.len() ==> (#[trigger] lines@[k]).chars@ == s.subrange(done[k].0, done[k].1),
            forall|k: int| 0 <= k < lines@.len() ==> (#[trigger] lines@[k]).w <= max_w || lines@[k].chars@.len() == 1,
            total_h as nat == lines_height(lines@),
            total_h <= lines@.len() * 0xffff_ffffu128,
            lines@.len() <= start,
            lines_count(lines@) == start,
            lines_height(lines@) == bounds_height(s, done),
        decreases n - start,
    {
        proof {
            lemma_line_end(s, start as int, max_w as nat);
        }
        // Greedy extent of the line starting at `start`.
        let mut x: u64 = chars[start].width() as u64;
        let mut e: usize = start + 1;
        proof {
            assert(s.subrange(start as int, start + 1) =~= Seq::<RichChar>::empty().push(s[start as int]));
            lemma_seq_width_push(Seq::<RichChar>::empty(), s[start as int]);
        }
        while e < n && chars[e - 1].c != '\n' && x + chars[e].width() as u64 <= max_w as u64
            invariant
                s == chars@,
                n == s.len(),
                start < e <= n,
                x == seq_width(s.subrange(start as int, e as int)),
                x <= max_w || e == start + 1,
                x <= u32::MAX,
                line_end_from(s, e as int, x as nat, max_w as nat) == line_end(s, start as int, max_w as nat),
            decreases n - e,
        {
            proof {
                assert(s.subrange(start as int, e + 1) =~= s.subrange(start as int, e as int).push(s[e as int]));
                lemma_seq_width_push(s.subrange(start as int, e as int), s[e as int]);
            }
            x = x + chars[e].width() as u64;
            e = e + 1;
        }
        assert(e == line_end(s, start as int, max_w as nat));
        // Copy the line and take its metrics.
        let mut line_chars: Vec<RichChar> = Vec::new();
        let mut line_h: u32 = 0;
        let mut line_base: u32 = 0;
        let mut i: usize = start;
        while i < e
            invariant
                s == chars@,
                start <= i <= e <= n,
                n == s.len(),
                line_chars@ == s.subrange(start as int, i as int),
                line_h == seq_height(line_chars@),
                line_base == seq_base(line_chars@),
            decreases e - i,
        {
            let rc = chars[i];
            proof {
                lemma_seq_width_push(line_chars@, rc);
                assert(s.subrange(start as int, i + 1) =~= s.subrange(start as int, i as int).push(rc));
            }
            line_chars.push(rc);
            if rc.height() > line_h {
                line_h = rc.height();
            }
            if rc.font.base_y > line_base {
                line_base = rc.font.base_y;
            }
            i = i + 1;
        }
        let line_w = x as u32;
        let x_offset = if line_w >= max_w {
            0
        } else {
            match justif {
                TextJustification::Left => 0,
                TextJustification::Center => (max_w - line_w) / 2,
                TextJustification::Right => max_w - line_w,
            }
        };
        let line = FormattedRichLine { chars: line_chars, w: line_w, h: line_h, base_y: line_base, x_offset };
        proof {
            lemma_lines_height_push(lines@, line);
            assert(done.push((start as int, e as int)).drop_last() =~= done);
        }
        total_h = total_h + line_h as u128;
        lines.push(line);
        proof {
            let e_int = e as int;
            assert(line_bounds_from(s, start as int, max_w as nat) == seq![(start as int, e_int)]
                + line_bounds_from(s, e_int, max_w as nat));
            assert(done.push((start as int, e_int)) + line_bounds_from(s, e_int, max_w as nat)
                =~= done + line_bounds_from(s, start as int, max_w as nat));
            done = done.push((start as int, e_int));
            assert forall|k: int| 0 <= k < lines@.len() implies (#[trigger] lines@[k]).chars@ == s.subrange(done[k].0, done[k].1) by {
            }
        }
        start = e;
    }
    proof {
        assert(line_bounds_from(s, n as int, max_w as nat) =~= seq![]);
        assert(done =~= line_bounds(s, max_w as nat));
        assert(lines_chars(lines@) =~= wrap_lines(s, max_w as nat));
    }
    if total_h > u32::MAX as u128 {
        return None;
    }
    let link_store = text.store_copy();
    Some(FormattedRichText { lines, w: max_w, h: total_h as u32, justif, link_store })
}

} // verus!
