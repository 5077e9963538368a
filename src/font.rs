use vstd::prelude::*;

verus! {

/// An immutable monospace bitmap font.
///
/// The bitmap holds one coverage byte per pixel. The glyphs stand side by side
/// in one strip, `nb_chars` cells of `char_w` by `char_h` pixels: row `y` of
/// glyph `g` starts at `y * char_w * nb_chars + g * char_w`.
pub struct Font {
    pub name: String,
    pub size: u32,
    pub bitmap: Vec<u8>,
    pub nb_chars: usize,
    pub char_h: u32,
    pub char_w: u32,
    pub base_y: u32,
}

/// Index of the glyph drawn for `c`: printable ASCII maps to its offset from
/// the space character, anything else to the space glyph.
pub open spec fn glyph_of(c: char) -> nat {
    if 32 <= c as u32 && c as u32 <= 126 {
        (c as u32 - 32) as nat
    } else {
        0
    }
}

/// Position in the strip bitmap of pixel (x, y) of glyph `g`.
pub open spec fn strip_index(nb_chars: nat, char_w: nat, g: nat, x: nat, y: nat) -> nat {
    y * char_w * nb_chars + g * char_w + x
}

impl Font {
    /// The bitmap holds exactly one byte per pixel of every glyph, and the
    /// baseline lies within the cell.
    pub open spec fn wf(&self) -> bool {
        &&& self.bitmap@.len() == self.nb_chars * self.char_w * self.char_h
        &&& self.base_y <= self.char_h
    }

    /// Coverage of pixel (x, y) of the glyph for `c`; a glyph missing from the
    /// font is blank.
    pub open spec fn coverage_spec(&self, c: char, x: nat, y: nat) -> u8 {
        let g = glyph_of(c);
        if g < self.nb_chars {
            self.bitmap@[strip_index(self.nb_chars as nat, self.char_w as nat, g, x, y) as int]
        } else {
            0
        }
    }

    /// Builds a font from a decoded bitmap and its descriptor; `None` when the
    /// bitmap's length is not `nb_chars * char_w * char_h`, or the baseline
    /// lies below the cell.
    pub fn new(
        name: String,
        size: u32,
        bitmap: Vec<u8>,
        nb_chars: usize,
        char_h: u32,
        char_w: u32,
        base_y: u32,
    ) -> (r: Option<Font>)
        ensures
            r is Some <==> bitmap@.len() == nb_chars * char_w * char_h && base_y <= char_h,
            r matches Some(f) ==> f.wf() && f.name@ == name@ && f.size == size && f.bitmap@
                == bitmap@ && f.nb_chars == nb_chars && f.char_h == char_h && f.char_w == char_w
                && f.base_y == base_y,
    {
        assert(char_w as u64 * char_h as u64 <= 0xffff_ffff_ffff_ffffu64) by (nonlinear_arith)
            requires char_w <= 0xffff_ffffu64, char_h <= 0xffff_ffffu64;
        let cell: u64 = char_w as u64 * char_h as u64;
        assert(nb_chars as u128 * cell as u128 <= 0xffff_ffff_ffff_ffffu128 * 0xffff_ffff_ffff_ffffu128)
            by (nonlinear_arith)
            requires nb_chars <= 0xffff_ffff_ffff_ffffu128, cell <= 0xffff_ffff_ffff_ffffu128;
        let expected: u128 = nb_chars as u128 * cell as u128;
        assert(expected == nb_chars * char_w * char_h) by (nonlinear_arith)
            requires expected == nb_chars * cell, cell == char_w * char_h;
        if bitmap.len() as u128 != expected || base_y > char_h {
            return None;
        }
        Some(Font { name, size, bitmap, nb_chars, char_h, char_w, base_y })
    }

    /// Whether the font is well formed.
    pub fn is_wf(&self) -> (r: bool)
        ensures
            r == self.wf(),
    {
        assert(self.char_w as u64 * self.char_h as u64 <= 0xffff_ffff_ffff_ffffu64) by (nonlinear_arith)
            requires self.char_w <= 0xffff_ffffu64, self.char_h <= 0xffff_ffffu64;
        let cell: u64 = self.char_w as u64 * self.char_h as u64;
        assert(self.nb_chars as u128 * cell as u128 <= 0xffff_ffff_ffff_ffffu128 * 0xffff_ffff_ffff_ffffu128)
            by (nonlinear_arith)
            requires self.nb_chars <= 0xffff_ffff_ffff_ffffu128, cell <= 0xffff_ffff_ffff_ffffu128;
        let expected: u128 = self.nb_chars as u128 * cell as u128;
        assert(expected == self.nb_chars * self.char_w * self.char_h) by (nonlinear_arith)
            requires expected == self.nb_chars * cell, cell == self.char_w * self.char_h;
        self.bitmap.len() as u128 == expected && self.base_y <= self.char_h
    }

    pub fn glyph_index(c: char) -> (g: usize)
        ensures
            g == glyph_of(c),
            g < 95,
    {
        let v = c as u32;
        if 32 <= v && v <= 126 {
            (v - 32) as usize
        } else {
            0
        }
    }

    /// Coverage value of pixel (x, y) of the glyph drawn for `c`.
    pub fn coverage(&self, c: char, x: u32, y: u32) -> (v: u8)
        requires
            self.wf(),
            x < self.char_w,
            y < self.char_h,
        ensures
            v == self.coverage_spec(c, x as nat, y as nat),
    {
        let g = Font::glyph_index(c);
        if g >= self.nb_chars {
            return 0;
        }
        let n = self.nb_chars;
        let len = self.bitmap.len();
        let w = self.char_w as usize;
        let yy = y as usize;
        let xx = x as usize;
        proof {
            let (ni, wi, hi, gi, xi, yi) = (n as int, w as int, self.char_h as int, g as int, x as int, y as int);
            assert(gi * wi <= (ni - 1) * wi) by (nonlinear_arith)
                requires gi <= ni - 1, wi >= 0;
            assert((ni - 1) * wi + wi == ni * wi) by (nonlinear_arith);
            assert((yi + 1) * wi * ni <= hi * wi * ni) by (nonlinear_arith)
                requires yi + 1 <= hi, wi >= 0, ni >= 0;
            assert((yi + 1) * wi * ni == yi * wi * ni + ni * wi) by (nonlinear_arith);
            assert(hi * wi * ni == ni * wi * hi) by (nonlinear_arith);
            assert(yi * wi * ni >= 0 && gi * wi >= 0) by (nonlinear_arith)
                requires yi >= 0, wi >= 0, ni >= 0, gi >= 0;
            assert(yi * wi <= yi * wi * ni) by (nonlinear_arith)
                requires yi >= 0, wi >= 0, ni >= 1;
            assert(ni * wi * hi == len);
            assert(yi * wi * ni + gi * wi + xi < len);
        }
        let i = yy * w * n + g * w + xx;
        self.bitmap[i]
    }
}

/// The fonts of one family, by ascending size.
pub struct FontFamily {
    pub name: String,
    pub by_size: Vec<Font>,
}

/// Sizes strictly ascend along the sequence.
pub open spec fn sizes_ascending(fonts: Seq<Font>) -> bool {
    forall|i: int, j: int| 0 <= i < j < fonts.len() ==> fonts[i].size < fonts[j].size
}

impl FontFamily {
    pub open spec fn fonts(&self) -> Seq<Font> {
        self.by_size@
    }

    /// Sizes ascend, and every font is well formed.
    pub open spec fn wf(&self) -> bool {
        &&& sizes_ascending(self.fonts())
        &&& forall|i: int| 0 <= i < self.fonts().len() ==> (#[trigger] self.fonts()[i]).wf()
    }

    pub open spec fn has_size(&self, size: u32) -> bool {
        exists|i: int| 0 <= i < self.fonts().len() && self.fonts()[i].size == size
    }

    /// A family with no font yet.
    pub fn new(name: String) -> (f: FontFamily)
        ensures
            f.wf(),
            f.name@ == name@,
            f.fonts().len() == 0,
    {
        FontFamily { name, by_size: Vec::new() }
    }

    /// Adds a font; one already held at the same size is replaced.
    pub fn add_font(&mut self, font: Font)
        requires
            old(self).wf(),
            font.wf(),
        ensures
            final(self).wf(),
            final(self).name == old(self).name,
            final(self).has_size(font.size),
            forall|s: u32| s != font.size ==> (final(self).has_size(s) <==> old(self).has_size(s)),
            forall|i: int| 0 <= i < final(self).fonts().len() && final(self).fonts()[i].size == font.size
                ==> final(self).fonts()[i] == font,
            forall|i: int| 0 <= i < final(self).fonts().len() && final(self).fonts()[i].size != font.size
                ==> exists|j: int| 0 <= j < old(self).fonts().len() && old(self).fonts()[j] == final(self).fonts()[i],
    {
        let n = self.by_size.len();
        let mut i: usize = 0;
        while i < n && self.by_size[i].size < font.size
            invariant
                n == self.by_size@.len(),
                i <= n,
                forall|k: int| 0 <= k < i ==> self.by_size@[k].size < font.size,
            decreases n - i,
        {
            i = i + 1;
        }
        let ghost old_fonts = self.by_size@;
        if i < n && self.by_size[i].size == font.size {
            self.by_size.set(i, font);
            assert forall|s: u32| s != font.size implies (self.has_size(s) <==> old(self).has_size(s)) by {
                if old(self).has_size(s) {
                    let k = choose|k: int| 0 <= k < old_fonts.len() && old_fonts[k].size == s;
                    assert(self.by_size@[k].size == s);
                }
                if self.has_size(s) {
                    let k = choose|k: int| 0 <= k < self.by_size@.len() && self.by_size@[k].size == s;
                    assert(old_fonts[k].size == s);
                }
            }
            assert(self.by_size@[i as int].size == font.size);
            assert forall|k: int| 0 <= k < self.fonts().len() && self.fonts()[k].size != font.size
                implies exists|j: int| 0 <= j < old(self).fonts().len() && old(self).fonts()[j] == self.fonts()[k] by {
                assert(old_fonts[k] == self.fonts()[k]);
            }
        } else {
            self.by_size.insert(i, font);
            assert forall|s: u32| s != font.size implies (self.has_size(s) <==> old(self).has_size(s)) by {
                if old(self).has_size(s) {
                    let k = choose|k: int| 0 <= k < old_fonts.len() && old_fonts[k].size == s;
                    if k < i {
                        assert(self.by_size@[k].size == s);
                    } else {
                        assert(self.by_size@[k + 1].size == s);
                    }
                }
                if self.has_size(s) {
                    let k = choose|k: int| 0 <= k < self.by_size@.len() && self.by_size@[k].size == s;
                    if k < i {
                        assert(old_fonts[k].size == s);
                    } else {
                        assert(k != i);
                        assert(old_fonts[k - 1].size == s);
                    }
                }
            }
            assert(self.by_size@[i as int].size == font.size);
            assert forall|k: int| 0 <= k < self.fonts().len() && self.fonts()[k].size != font.size
                implies exists|j: int| 0 <= j < old(self).fonts().len() && old(self).fonts()[j] == self.fonts()[k] by {
                if k < i {
                    assert(old_fonts[k] == self.fonts()[k]);
                } else {
                    assert(k != i);
                    assert(old_fonts[k - 1] == self.fonts()[k]);
                }
            }
        }
    }

    /// Builds a family from its fonts, one per size: the family holds a font of
    /// each size given, and each font it holds is one of those given.
    pub fn from_font_data(family_name: String, fonts: Vec<Font>) -> (f: FontFamily)
        requires
            forall|j: int| 0 <= j < fonts@.len() ==> (#[trigger] fonts@[j]).wf(),
        ensures
            f.wf(),
            f.name@ == family_name@,
            forall|s: u32| f.has_size(s) <==> exists|j: int| 0 <= j < fonts@.len() && fonts@[j].size == s,
            forall|i: int| 0 <= i < f.fonts().len() ==> fonts@.contains(#[trigger] f.fonts()[i]),
    {
        let mut family = FontFamily::new(family_name);
        let mut rest = fonts;
        let ghost all = rest@;
        while rest.len() > 0
            invariant
                family.wf(),
                family.name@ == family_name@,
                all == fonts@,
                forall|j: int| 0 <= j < all.len() ==> (#[trigger] all[j]).wf(),
                rest@.len() <= all.len(),
                rest@ == all.subrange(all.len() - rest@.len(), all.len() as int),
                forall|s: u32| family.has_size(s) <==> exists|j: int|
                    0 <= j < all.len() - rest@.len() && all[j].size == s,
                forall|i: int| 0 <= i < family.fonts().len() ==> all.contains(#[trigger] family.fonts()[i]),
            decreases rest@.len(),
        {
            let ghost k = all.len() - rest@.len();
            let font = rest.remove(0);
            assert(font == all[k]);
            let ghost before = family;
            family.add_font(font);
            assert forall|s: u32| family.has_size(s) <==> exists|j: int|
                0 <= j < k + 1 && all[j].size == s by {
                if s != all[k].size {
                    if exists|j: int| 0 <= j < k + 1 && all[j].size == s {
                        let j = choose|j: int| 0 <= j < k + 1 && all[j].size == s;
                        assert(j != k);
                        assert(before.has_size(s));
                    }
                }
            }
            assert(rest@ =~= all.subrange(all.len() - rest@.len(), all.len() as int));
            assert forall|i: int| 0 <= i < family.fonts().len() implies all.contains(#[trigger] family.fonts()[i]) by {
                if family.fonts()[i].size == all[k].size {
                    assert(all[k] == family.fonts()[i]);
                } else {
                    let j0 = choose|j0: int| 0 <= j0 < before.fonts().len() && before.fonts()[j0] == family.fonts()[i];
                    assert(all.contains(before.fonts()[j0]));
                }
            }
        }
        family
    }

    /// The font of this family at `size`, if there is one.
    pub fn get_size(&self, size: u32) -> (r: Option<&Font>)
        ensures
            r is Some <==> self.has_size(size),
            r matches Some(f) ==> (self.wf() ==> f.wf()),
            r matches Some(f) ==> f.size == size && exists|i: int|
                0 <= i < self.fonts().len() && self.fonts()[i] == *f,
    {
        let n = self.by_size.len();
        let mut i: usize = 0;
        while i < n
            invariant
                n == self.by_size@.len(),
                i <= n,
                forall|k: int| 0 <= k < i ==> self.by_size@[k].size != size,
            decreases n - i,
        {
            if self.by_size[i].size == size {
                assert(self.fonts()[i as int].size == size);
                return Some(&self.by_size[i]);
            }
            i = i + 1;
        }
        None
    }

    /// The sizes held, in ascending order.
    pub fn get_available_sizes(&self) -> (r: Vec<u32>)
        requires
            self.wf(),
        ensures
            r@ == self.fonts().map_values(|f: Font| f.size),
            forall|i: int, j: int| 0 <= i < j < r@.len() ==> r@[i] < r@[j],
    {
        let n = self.by_size.len();
        let mut r: Vec<u32> = Vec::new();
        let mut i: usize = 0;
        while i < n
            invariant
                n == self.by_size@.len(),
                i <= n,
                r@ == self.fonts().subrange(0, i as int).map_values(|f: Font| f.size),
            decreases n - i,
        {
            r.push(self.by_size[i].size);
            i = i + 1;
        }
        assert(self.fonts().subrange(0, n as int) =~= self.fonts());
        r
    }
}

/// The process's font families, by name.
pub struct FontRegistry {
    pub families: Vec<FontFamily>,
}

/// The font of family `family_name` at `size` in `registry`, if any.
pub fn get_font<'a>(registry: &'a FontRegistry, family_name: &str, size: u32) -> (r: Option<&'a Font>)
    ensures
        r is Some <==> exists|i: int|
            0 <= i < registry.families@.len() && registry.families@[i].name@ == family_name@
                && (forall|k: int| 0 <= k < i ==> registry.families@[k].name@ != family_name@)
                && registry.families@[i].has_size(size),
        r matches Some(f) ==> f.size == size,
{
    let key = family_name.to_owned();
    let n = registry.families.len();
    let mut i: usize = 0;
    while i < n
        invariant
            n == registry.families@.len(),
            i <= n,
            key@ == family_name@,
            forall|k: int| 0 <= k < i ==> registry.families@[k].name@ != family_name@,
        decreases n - i,
    {
        if registry.families[i].name == key {
            return registry.families[i].get_size(size);
        }
        i = i + 1;
    }
    None
}

} // verus!
