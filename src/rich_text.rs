use vstd::prelude::*;
use vstd::string::*;

use crate::color::Color;
use crate::font::Font;
use crate::hash::{compute_hash, hash_chars};

verus! {

/// Identity of a hyperlink: the hash of its URL.
#[derive(Clone, Copy, Debug, PartialEq, Eq, Structural, Hash)]
pub struct LinkId(pub u64);

/// One displayable character with its style and optional hyperlink.
#[derive(Clone, Copy)]
pub struct RichChar {
    pub c: char,
    pub color: Color,
    pub font: &'static Font,
    pub link_id: Option<LinkId>,
}

/// Pixel width of a character: its font's cell width, zero for a newline.
pub open spec fn char_width(rc: RichChar) -> nat {
    if rc.c == '\n' {
        0
    } else {
        rc.font.char_w as nat
    }
}

/// Pixel height of a character: its font's cell height.
pub open spec fn char_height(rc: RichChar) -> nat {
    rc.font.char_h as nat
}

impl RichChar {
    pub fn width(&self) -> (w: u32)
        ensures
            w == char_width(*self),
    {
        if self.c == '\n' {
            0
        } else {
            self.font.char_w
        }
    }

    pub fn height(&self) -> (h: u32)
        ensures
            h == char_height(*self),
    {
        self.font.char_h
    }
}

/// Number of characters of `chars` tagged with link `id`.
pub open spec fn tag_count(chars: Seq<RichChar>, id: u64) -> nat
    decreases chars.len(),
{
    if chars.len() == 0 {
        0
    } else {
        tag_count(chars.drop_last(), id) + if chars.last().link_id == Some(LinkId(id)) {
            1nat
        } else {
            0nat
        }
    }
}

/// The link registry agrees with the characters: an id is registered exactly
/// when some character carries it, and its count is the number of such characters.
pub open spec fn counts_match(chars: Seq<RichChar>, links: Map<u64, (nat, Seq<char>)>) -> bool {
    &&& forall|id: u64| #[trigger] links.contains_key(id) <==> tag_count(chars, id) > 0
    &&& forall|id: u64| #[trigger] links.contains_key(id) ==> links[id].0 == tag_count(chars, id)
}

/// The registry of `a` merged with the one of `b`: counts of shared ids add up,
/// the URL of `a` is kept.
pub open spec fn merge_links(a: Map<u64, (nat, Seq<char>)>, b: Map<u64, (nat, Seq<char>)>) -> Map<
    u64,
    (nat, Seq<char>),
> {
    Map::new(
        |id: u64| a.contains_key(id) || b.contains_key(id),
        |id: u64|
            if a.contains_key(id) && b.contains_key(id) {
                (a[id].0 + b[id].0, a[id].1)
            } else if a.contains_key(id) {
                a[id]
            } else {
                b[id]
            },
    )
}

/// The link id given to a URL.
pub open spec fn link_tag(link: Option<&str>) -> Option<LinkId> {
    match link {
        Some(l) => Some(LinkId(hash_chars(l@))),
        None => None,
    }
}

pub open spec fn rich_char(c: char, color: Color, font: &'static Font, link_id: Option<LinkId>) -> RichChar {
    RichChar { c, color, font, link_id }
}

/// The characters that appending `s` in one style adds.
pub open spec fn styled_run(s: Seq<char>, color: Color, font: &'static Font, link_id: Option<LinkId>) -> Seq<RichChar>
    decreases s.len(),
{
    if s.len() == 0 {
        Seq::empty()
    } else {
        styled_run(s.drop_last(), color, font, link_id).push(rich_char(s.last(), color, font, link_id))
    }
}

pub broadcast proof fn lemma_styled_run(s: Seq<char>, color: Color, font: &'static Font, link_id: Option<LinkId>)
    ensures
        #[trigger] styled_run(s, color, font, link_id).len() == s.len(),
        forall|i: int| 0 <= i < s.len() ==> #[trigger] styled_run(s, color, font, link_id)[i] == (RichChar { c: s[i], color, font, link_id }),
    decreases s.len(),
{
    if s.len() > 0 {
        lemma_styled_run(s.drop_last(), color, font, link_id);
    }
}

#[derive(Clone)]
pub struct LinkEntry {
    pub id: LinkId,
    pub count: usize,
    pub url: String,
}

pub open spec fn ids_unique(s: Seq<LinkEntry>) -> bool {
    forall|i: int, j: int| 0 <= i < s.len() && 0 <= j < s.len() && i != j ==> s[i].id != s[j].id
}

/// The registry held as a list of entries, seen as a map from id to (count, URL).
pub open spec fn store_map(s: Seq<LinkEntry>) -> Map<u64, (nat, Seq<char>)> {
    Map::new(
        |id: u64| exists|i: int| 0 <= i < s.len() && s[i].id.0 == id,
        |id: u64|
            {
                let i = choose|i: int| 0 <= i < s.len() && s[i].id.0 == id;
                (s[i].count as nat, s[i].url@)
            },
    )
}

pub proof fn lemma_tag_count_concat(a: Seq<RichChar>, b: Seq<RichChar>, id: u64)
    ensures
        tag_count(a + b, id) == tag_count(a, id) + tag_count(b, id),
    decreases b.len(),
{
    if b.len() == 0 {
        assert(a + b =~= a);
    } else {
        assert((a + b).drop_last() =~= a + b.drop_last());
        lemma_tag_count_concat(a, b.drop_last(), id);
    }
}

pub proof fn lemma_tag_count_bound(s: Seq<RichChar>, id: u64)
    ensures
        tag_count(s, id) <= s.len(),
    decreases s.len(),
{
    if s.len() > 0 {
        lemma_tag_count_bound(s.drop_last(), id);
    }
}

pub proof fn lemma_tag_count_single(rc: RichChar, id: u64)
    ensures
        tag_count(seq![rc], id) == if rc.link_id == Some(LinkId(id)) { 1nat } else { 0nat },
{
    assert(seq![rc].drop_last() =~= Seq::<RichChar>::empty());
    assert(tag_count(Seq::<RichChar>::empty(), id) == 0);
}

/// A character tagged with `id` makes its count positive.
pub proof fn lemma_tagged_counts(s: Seq<RichChar>, j: int, id: u64)
    requires
        0 <= j < s.len(),
        s[j].link_id == Some(LinkId(id)),
    ensures
        tag_count(s, id) > 0,
{
    let pre = s.subrange(0, j);
    let post = s.subrange(j + 1, s.len() as int);
    assert(s =~= pre + seq![s[j]] + post);
    lemma_tag_count_concat(pre + seq![s[j]], post, id);
    lemma_tag_count_concat(pre, seq![s[j]], id);
    lemma_tag_count_single(s[j], id);
}

/// Counts after inserting `rc` at `pos`.
pub proof fn lemma_tag_count_insert(s: Seq<RichChar>, pos: int, rc: RichChar, id: u64)
    requires
        0 <= pos <= s.len(),
    ensures
        tag_count(s.insert(pos, rc), id) == tag_count(s, id) + tag_count(seq![rc], id),
{
    let pre = s.subrange(0, pos);
    let post = s.subrange(pos, s.len() as int);
    assert(s =~= pre + post);
    assert(s.insert(pos, rc) =~= pre + seq![rc] + post);
    lemma_tag_count_concat(pre + seq![rc], post, id);
    lemma_tag_count_concat(pre, seq![rc], id);
    lemma_tag_count_concat(pre, post, id);
}

/// Counts after removing the character at `pos`.
pub proof fn lemma_tag_count_remove(s: Seq<RichChar>, pos: int, id: u64)
    requires
        0 <= pos < s.len(),
    ensures
        tag_count(s, id) == tag_count(s.remove(pos), id) + tag_count(seq![s[pos]], id),
{
    let pre = s.subrange(0, pos);
    let post = s.subrange(pos + 1, s.len() as int);
    assert(s =~= pre + seq![s[pos]] + post);
    assert(s.remove(pos) =~= pre + post);
    lemma_tag_count_concat(pre + seq![s[pos]], post, id);
    lemma_tag_count_concat(pre, seq![s[pos]], id);
    lemma_tag_count_concat(pre, post, id);
}

proof fn lemma_tag_count_run(s: Seq<char>, color: Color, font: &'static Font, link_id: Option<LinkId>, id: u64)
    ensures
        tag_count(styled_run(s, color, font, link_id), id) == if link_id == Some(LinkId(id)) {
            s.len()
        } else {
            0
        },
    decreases s.len(),
{
    if s.len() > 0 {
        assert(styled_run(s, color, font, link_id).drop_last() =~= styled_run(s.drop_last(), color, font, link_id));
        lemma_tag_count_run(s.drop_last(), color, font, link_id, id);
    }
}

pub(crate) proof fn lemma_store_lookup(s: Seq<LinkEntry>, k: int)
    requires
        ids_unique(s),
        0 <= k < s.len(),
    ensures
        store_map(s).contains_key(s[k].id.0),
        store_map(s)[s[k].id.0] == (s[k].count as nat, s[k].url@),
{
    let id = s[k].id.0;
    assert(exists|i: int| 0 <= i < s.len() && s[i].id.0 == id);
    let i = choose|i: int| 0 <= i < s.len() && s[i].id.0 == id;
    assert(s[i].id == s[k].id);
}

proof fn lemma_store_push(s: Seq<LinkEntry>, e: LinkEntry)
    requires
        ids_unique(s),
        !store_map(s).contains_key(e.id.0),
    ensures
        ids_unique(s.push(e)),
        store_map(s.push(e)) == store_map(s).insert(e.id.0, (e.count as nat, e.url@)),
{
    let t = s.push(e);
    assert forall|i: int| 0 <= i < s.len() implies s[i].id.0 != e.id.0 by {
        if s[i].id.0 == e.id.0 {
            assert(store_map(s).contains_key(e.id.0));
        }
    }
    assert(ids_unique(t));
    assert forall|id: u64| #[trigger] store_map(t).contains_key(id) <==> store_map(s).insert(
        e.id.0,
        (e.count as nat, e.url@),
    ).contains_key(id) by {
        if store_map(s).contains_key(id) {
            let i = choose|i: int| 0 <= i < s.len() && s[i].id.0 == id;
            assert(t[i].id.0 == id);
        }
        if store_map(t).contains_key(id) && id != e.id.0 {
            let i = choose|i: int| 0 <= i < t.len() && t[i].id.0 == id;
            assert(s[i].id.0 == id);
        }
        if id == e.id.0 {
            assert(t[s.len() as int].id.0 == id);
        }
    }
    assert forall|id: u64| #[trigger] store_map(t).contains_key(id) implies store_map(t)[id]
        == store_map(s).insert(e.id.0, (e.count as nat, e.url@))[id] by {
        let i = choose|i: int| 0 <= i < t.len() && t[i].id.0 == id;
        lemma_store_lookup(t, i);
        if i < s.len() {
            lemma_store_lookup(s, i);
        }
    }
    assert(store_map(t) =~= store_map(s).insert(e.id.0, (e.count as nat, e.url@)));
}

proof fn lemma_store_update(s: Seq<LinkEntry>, k: int, e: LinkEntry)
    requires
        ids_unique(s),
        0 <= k < s.len(),
        e.id == s[k].id,
    ensures
        ids_unique(s.update(k, e)),
        store_map(s.update(k, e)) == store_map(s).insert(e.id.0, (e.count as nat, e.url@)),
{
    let t = s.update(k, e);
    assert(ids_unique(t));
    lemma_store_lookup(s, k);
    assert forall|id: u64| #[trigger] store_map(t).contains_key(id) <==> store_map(s).contains_key(id) by {
        if store_map(s).contains_key(id) {
            let i = choose|i: int| 0 <= i < s.len() && s[i].id.0 == id;
            assert(t[i].id.0 == id);
        }
        if store_map(t).contains_key(id) {
            let i = choose|i: int| 0 <= i < t.len() && t[i].id.0 == id;
            assert(s[i].id.0 == id);
        }
    }
    assert forall|id: u64| #[trigger] store_map(t).contains_key(id) implies store_map(t)[id]
        == store_map(s).insert(e.id.0, (e.count as nat, e.url@))[id] by {
        let i = choose|i: int| 0 <= i < t.len() && t[i].id.0 == id;
        lemma_store_lookup(t, i);
        lemma_store_lookup(s, i);
    }
    assert(store_map(t) =~= store_map(s).insert(e.id.0, (e.count as nat, e.url@)));
}

proof fn lemma_store_remove(s: Seq<LinkEntry>, k: int)
    requires
        ids_unique(s),
        0 <= k < s.len(),
    ensures
        ids_unique(s.remove(k)),
        store_map(s.remove(k)) == store_map(s).remove(s[k].id.0),
{
    let t = s.remove(k);
    let rid = s[k].id.0;
    assert forall|i: int, j: int| 0 <= i < t.len() && 0 <= j < t.len() && i != j implies t[i].id != t[j].id by {
        let si = if i < k { i } else { i + 1 };
        let sj = if j < k { j } else { j + 1 };
        assert(t[i] == s[si] && t[j] == s[sj]);
    }
    assert forall|id: u64| #[trigger] store_map(t).contains_key(id) <==> store_map(s).remove(rid).contains_key(id) by {
        if store_map(s).contains_key(id) && id != rid {
            let i = choose|i: int| 0 <= i < s.len() && s[i].id.0 == id;
            if i < k {
                assert(t[i].id.0 == id);
            } else {
                assert(i != k);
                assert(t[i - 1].id.0 == id);
            }
        }
        if store_map(t).contains_key(id) {
            let i = choose|i: int| 0 <= i < t.len() && t[i].id.0 == id;
            let si = if i < k { i } else { i + 1 };
            assert(s[si].id.0 == id);
            assert(si != k);
        }
    }
    assert forall|id: u64| #[trigger] store_map(t).contains_key(id) implies store_map(t)[id]
        == store_map(s).remove(rid)[id] by {
        let i = choose|i: int| 0 <= i < t.len() && t[i].id.0 == id;
        let si = if i < k { i } else { i + 1 };
        lemma_store_lookup(t, i);
        lemma_store_lookup(s, si);
    }
    assert(store_map(t) =~= store_map(s).remove(rid));
}

/// Position of the entry with id `id`, if any.
pub(crate) fn find_link(store: &Vec<LinkEntry>, id: LinkId) -> (r: Option<usize>)
    requires
        ids_unique(store@),
    ensures
        r matches Some(k) ==> k < store@.len() && store@[k as int].id == id,
        r is None ==> !store_map(store@).contains_key(id.0),
{
    let n = store.len();
    let mut k: usize = 0;
    while k < n
        invariant
            n == store@.len(),
            k <= n,
            forall|i: int| 0 <= i < k ==> store@[i].id.0 != id.0,
        decreases n - k,
    {
        if store[k].id.0 == id.0 {
            return Some(k);
        }
        k = k + 1;
    }
    None
}

/// Copy of a registry.
fn clone_store(store: &Vec<LinkEntry>) -> (r: Vec<LinkEntry>)
    ensures
        r@.len() == store@.len(),
        forall|i: int| 0 <= i < r@.len() ==> r@[i].id == store@[i].id && r@[i].count == store@[i].count
            && r@[i].url@ == store@[i].url@,
{
    let mut r: Vec<LinkEntry> = Vec::new();
    let n = store.len();
    let mut k: usize = 0;
    while k < n
        invariant
            n == store@.len(),
            k <= n,
            r@.len() == k,
            forall|i: int| 0 <= i < k ==> r@[i].id == store@[i].id && r@[i].count == store@[i].count
                && r@[i].url@ == store@[i].url@,
        decreases n - k,
    {
        let e = &store[k];
        r.push(LinkEntry { id: e.id, count: e.count, url: e.url.clone() });
        k = k + 1;
    }
    r
}

proof fn lemma_store_copy(a: Seq<LinkEntry>, b: Seq<LinkEntry>)
    requires
        ids_unique(a),
        a.len() == b.len(),
        forall|i: int| 0 <= i < a.len() ==> a[i].id == b[i].id && a[i].count == b[i].count && a[i].url@ == b[i].url@,
    ensures
        store_map(a) == store_map(b),
        ids_unique(b),
{
    assert forall|id: u64| #[trigger] store_map(a).contains_key(id) <==> store_map(b).contains_key(id) by {
        if store_map(a).contains_key(id) {
            let i = choose|i: int| 0 <= i < a.len() && a[i].id.0 == id;
            assert(b[i].id.0 == id);
        }
        if store_map(b).contains_key(id) {
            let i = choose|i: int| 0 <= i < b.len() && b[i].id.0 == id;
            assert(a[i].id.0 == id);
        }
    }
    assert(ids_unique(b));
    assert forall|id: u64| #[trigger] store_map(a).contains_key(id) implies store_map(a)[id] == store_map(b)[id] by {
        let i = choose|i: int| 0 <= i < a.len() && a[i].id.0 == id;
        lemma_store_lookup(a, i);
        lemma_store_lookup(b, i);
    }
    assert(store_map(a) =~= store_map(b));
}

proof fn lemma_store_prefix(s: Seq<LinkEntry>, k: int)
    requires
        ids_unique(s),
        0 <= k < s.len(),
    ensures
        ids_unique(s.subrange(0, k)),
        !store_map(s.subrange(0, k)).contains_key(s[k].id.0),
        store_map(s.subrange(0, k + 1)) == store_map(s.subrange(0, k)).insert(
            s[k].id.0,
            (s[k].count as nat, s[k].url@),
        ),
{
    let p = s.subrange(0, k);
    assert(ids_unique(p));
    assert forall|i: int| 0 <= i < p.len() implies p[i].id.0 != s[k].id.0 by {
        assert(p[i] == s[i]);
    }
    assert(s.subrange(0, k + 1) =~= p.push(s[k]));
    lemma_store_push(p, s[k]);
}

proof fn lemma_merge_insert(a: Map<u64, (nat, Seq<char>)>, p: Map<u64, (nat, Seq<char>)>, id: u64, v: (nat, Seq<char>))
    requires
        !p.contains_key(id),
    ensures
        merge_links(a, p.insert(id, v)) == merge_links(a, p).insert(
            id,
            if a.contains_key(id) { (a[id].0 + v.0, a[id].1) } else { v },
        ),
{
    assert(merge_links(a, p.insert(id, v)) =~= merge_links(a, p).insert(
        id,
        if a.contains_key(id) { (a[id].0 + v.0, a[id].1) } else { v },
    ));
}

/// Appends `c` to `s`.
/// Relies on `String::push`, which appends one character to the string.
#[verifier::external_body]
pub(crate) fn push_char(s: &mut String, c: char)
    ensures
        final(s)@ == old(s)@.push(c),
{
    s.push(c);
}

/// An ordered, mutable sequence of styled characters with its link registry.
#[derive(Clone)]
pub struct RichText {
    chars: Vec<RichChar>,
    link_store: Vec<LinkEntry>,
}

impl RichText {
    /// The characters, in order.
    pub closed spec fn text(&self) -> Seq<RichChar> {
        self.chars@
    }

    /// The link registry: id to (reference count, URL).
    pub closed spec fn links(&self) -> Map<u64, (nat, Seq<char>)> {
        store_map(self.link_store@)
    }

    pub closed spec fn store_wf(&self) -> bool {
        ids_unique(self.link_store@)
    }

    /// The buffer's invariant: the registry counts exactly the tagged characters.
    pub open spec fn inv(&self) -> bool {
        self.store_wf() && counts_match(self.text(), self.links())
    }

    pub(crate) fn chars_ref(&self) -> (r: &Vec<RichChar>)
        ensures
            r@ == self.text(),
    {
        &self.chars
    }

    pub(crate) fn store_copy(&self) -> (r: Vec<LinkEntry>)
        requires
            self.inv(),
        ensures
            ids_unique(r@),
            store_map(r@) == self.links(),
    {
        let r = clone_store(&self.link_store);
        proof {
            lemma_store_copy(self.link_store@, r@);
        }
        r
    }

    pub fn new() -> (t: RichText)
        ensures
            t.inv(),
            t.text() == Seq::<RichChar>::empty(),
            t.links() == Map::<u64, (nat, Seq<char>)>::empty(),
    {
        let t = RichText { chars: Vec::new(), link_store: Vec::new() };
        assert(t.links() =~= Map::<u64, (nat, Seq<char>)>::empty());
        t
    }

    pub fn is_empty(&self) -> (b: bool)
        ensures
            b == (self.text().len() == 0),
    {
        self.chars.len() == 0
    }

    pub fn len(&self) -> (n: usize)
        ensures
            n == self.text().len(),
    {
        self.chars.len()
    }

    /// A copy of the buffer.
    pub fn copy(&self) -> (r: RichText)
        requires
            self.inv(),
        ensures
            r.inv(),
            r.text() == self.text(),
            r.links() == self.links(),
    {
        let mut chars: Vec<RichChar> = Vec::new();
        let n = self.chars.len();
        let mut i: usize = 0;
        while i < n
            invariant
                n == self.chars@.len(),
                i <= n,
                chars@ == self.chars@.subrange(0, i as int),
            decreases n - i,
        {
            chars.push(self.chars[i]);
            assert(self.chars@.subrange(0, i + 1) =~= self.chars@.subrange(0, i as int).push(self.chars@[i as int]));
            i = i + 1;
        }
        assert(self.chars@.subrange(0, n as int) =~= self.chars@);
        let link_store = self.store_copy();
        RichText { chars, link_store }
    }

    /// Whether every character's font is well formed.
    pub fn fonts_ok(&self) -> (r: bool)
        ensures
            r == forall|i: int| 0 <= i < self.text().len() ==> (#[trigger] self.text()[i]).font.wf(),
    {
        let n = self.chars.len();
        let mut i: usize = 0;
        while i < n
            invariant
                n == self.chars@.len(),
                i <= n,
                forall|j: int| 0 <= j < i ==> (#[trigger] self.chars@[j]).font.wf(),
            decreases n - i,
        {
            if !self.chars[i].font.is_wf() {
                return false;
            }
            i = i + 1;
        }
        true
    }

    /// Removes every character, and with them every registered link.
    pub fn clear(&mut self)
        ensures
            final(self).inv(),
            final(self).text() == Seq::<RichChar>::empty(),
            final(self).links() == Map::<u64, (nat, Seq<char>)>::empty(),
    {
        self.chars.clear();
        self.link_store.clear();
        assert(self.links() =~= Map::<u64, (nat, Seq<char>)>::empty());
    }

    /// Appends the characters of `s`, all in one color and font, tagged with
    /// `link` when there is one. The link's count grows by the number of
    /// characters appended; a new link is registered with that count.
    pub fn add_part(&mut self, s: &str, color: Color, font: &'static Font, link: Option<&str>)
        requires
            old(self).inv(),
        ensures
            final(self).inv(),
            final(self).text() == old(self).text() + styled_run(s@, color, font, link_tag(link)),
            final(self).links() == match link {
                Some(l) => if s@.len() == 0 {
                    old(self).links()
                } else if old(self).links().contains_key(hash_chars(l@)) {
                    old(self).links().insert(
                        hash_chars(l@),
                        (old(self).links()[hash_chars(l@)].0 + s@.len(), old(self).links()[hash_chars(l@)].1),
                    )
                } else {
                    old(self).links().insert(hash_chars(l@), (s@.len(), l@))
                },
                None => old(self).links(),
            },
    {
        broadcast use lemma_styled_run;

        let link_id = match link {
            Some(l) => Some(LinkId(compute_hash(l))),
            None => None,
        };
        let ghost old_chars = self.chars@;
        let ghost old_store = self.link_store@;
        let n = s.unicode_len();
        let mut i: usize = 0;
        assert(old_chars + styled_run(s@.subrange(0, 0), color, font, link_id) =~= old_chars);
        while i < n
            invariant
                n == s@.len(),
                i <= n,
                link_id == link_tag(link),
                self.link_store@ == old_store,
                self.chars@ == old_chars + styled_run(s@.subrange(0, i as int), color, font, link_id),
            decreases n - i,
        {
            let c = s.get_char(i);
            self.chars.push(RichChar { c, color, font, link_id });
            proof {
                assert(s@.subrange(0, i + 1).drop_last() =~= s@.subrange(0, i as int));
                assert(self.chars@ =~= old_chars + styled_run(s@.subrange(0, i + 1), color, font, link_id));
            }
            i = i + 1;
        }
        assert(s@.subrange(0, n as int) =~= s@);
        let ghost run = styled_run(s@, color, font, link_id);
        proof {
            assert forall|id: u64| tag_count(self.chars@, id) == tag_count(old_chars, id) + if link_id == Some(
                LinkId(id),
            ) {
                n as nat
            } else {
                0
            } by {
                lemma_tag_count_concat(old_chars, run, id);
                lemma_tag_count_run(s@, color, font, link_id, id);
            }
        }
        if n > 0 {
            if let Some(l) = link {
                let id = LinkId(compute_hash(l));
                proof {
                    lemma_tag_count_bound(self.chars@, id.0);
                }
                match find_link(&self.link_store, id) {
                    Some(k) => {
                        proof {
                            lemma_store_lookup(self.link_store@, k as int);
                        }
                        let count = self.link_store[k].count;
                        let total = self.chars.len();
                        assert(count + n == tag_count(self.chars@, id.0));
                        assert(count + n <= total);
                        let url = self.link_store[k].url.clone();
                        let ghost before = self.link_store@;
                        self.link_store.set(k, LinkEntry { id, count: count + n, url });
                        proof {
                            lemma_store_update(before, k as int, self.link_store@[k as int]);
                        }
                    },
                    None => {
                        let ghost before = self.link_store@;
                        self.link_store.push(LinkEntry { id, count: n, url: l.to_owned() });
                        proof {
                            lemma_store_push(before, self.link_store@.last());
                        }
                    },
                }
            }
        }
    }

    /// Inserts an unlinked character at `pos`.
    pub fn insert(&mut self, pos: usize, c: char, color: Color, font: &'static Font)
        requires
            old(self).inv(),
            pos <= old(self).text().len(),
        ensures
            final(self).inv(),
            final(self).text() == old(self).text().insert(
                pos as int,
                RichChar { c, color, font, link_id: None },
            ),
            final(self).links() == old(self).links(),
    {
        let rc = RichChar { c, color, font, link_id: None };
        let ghost old_chars = self.chars@;
        self.chars.insert(pos, rc);
        proof {
            assert forall|id: u64| tag_count(self.chars@, id) == tag_count(old_chars, id) by {
                lemma_tag_count_insert(old_chars, pos as int, rc, id);
                lemma_tag_count_single(rc, id);
            }
        }
    }

    /// Removes the character at `pos`; its link's count drops by one, and the
    /// link leaves the registry when no character carries it any more.
    pub fn remove(&mut self, pos: usize)
        requires
            old(self).inv(),
            pos < old(self).text().len(),
        ensures
            final(self).inv(),
            final(self).text() == old(self).text().remove(pos as int),
            final(self).links() == match old(self).text()[pos as int].link_id {
                Some(id) => if old(self).links()[id.0].0 == 1 {
                    old(self).links().remove(id.0)
                } else {
                    old(self).links().insert(id.0, (
                        (old(self).links()[id.0].0 - 1) as nat,
                        old(self).links()[id.0].1,
                    ))
                },
                None => old(self).links(),
            },
    {
        let ghost old_chars = self.chars@;
        let rc = self.chars[pos];
        proof {
            assert forall|id: u64| tag_count(old_chars, id) == tag_count(old_chars.remove(pos as int), id)
                + if rc.link_id == Some(LinkId(id)) { 1nat } else { 0nat } by {
                lemma_tag_count_remove(old_chars, pos as int, id);
                lemma_tag_count_single(rc, id);
            }
        }
        if let Some(id) = rc.link_id {
            proof {
                lemma_tagged_counts(old_chars, pos as int, id.0);
            }
            match find_link(&self.link_store, id) {
                Some(k) => {
                    proof {
                        lemma_store_lookup(self.link_store@, k as int);
                    }
                    let count = self.link_store[k].count;
                    let ghost before = self.link_store@;
                    if count == 1 {
                        self.link_store.remove(k);
                        proof {
                            lemma_store_remove(before, k as int);
                        }
                    } else {
                        let url = self.link_store[k].url.clone();
                        self.link_store.set(k, LinkEntry { id, count: count - 1, url });
                        proof {
                            lemma_store_update(before, k as int, self.link_store@[k as int]);
                        }
                    }
                },
                None => {},
            }
        }
        self.chars.remove(pos);
    }

    /// A buffer holding the characters of `s` in one style.
    pub fn from_str(s: &str, color: Color, font: &'static Font, link: Option<&str>) -> (t: RichText)
        ensures
            t.inv(),
            t.text() == styled_run(s@, color, font, link_tag(link)),
            t.links() == match link {
                Some(l) => if s@.len() == 0 {
                    Map::<u64, (nat, Seq<char>)>::empty()
                } else {
                    Map::<u64, (nat, Seq<char>)>::empty().insert(hash_chars(l@), (s@.len(), l@))
                },
                None => Map::<u64, (nat, Seq<char>)>::empty(),
            },
    {
        broadcast use lemma_styled_run;

        let mut t = RichText::new();
        t.add_part(s, color, font, link);
        assert(Seq::<RichChar>::empty() + styled_run(s@, color, font, link_tag(link)) =~= styled_run(
            s@,
            color,
            font,
            link_tag(link),
        ));
        t
    }

    /// Appends the characters of `other` and merges its link registry into
    /// this one: counts of a link held by both add up.
    pub fn concat(&mut self, other: RichText)
        requires
            old(self).inv(),
            other.inv(),
        ensures
            final(self).inv(),
            final(self).text() == old(self).text() + other.text(),
            final(self).links() == merge_links(old(self).links(), other.links()),
    {
        let mut other = other;
        let ghost a = self.chars@;
        let ghost b = other.chars@;
        let ghost la = self.links();
        let ghost lb = other.links();
        self.chars.append(&mut other.chars);
        let total = self.chars.len();
        proof {
            assert forall|id: u64| tag_count(a + b, id) == tag_count(a, id) + tag_count(b, id) by {
                lemma_tag_count_concat(a, b, id);
            }
            assert forall|id: u64| tag_count(a + b, id) <= total by {
                lemma_tag_count_bound(a + b, id);
            }
            assert(merge_links(la, store_map(other.link_store@.subrange(0, 0))) =~= la);
        }
        let n = other.link_store.len();
        let mut k: usize = 0;
        while k < n
            invariant
                n == other.link_store@.len(),
                k <= n,
                ids_unique(other.link_store@),
                store_map(other.link_store@) == lb,
                counts_match(a, la),
                counts_match(b, lb),
                ids_unique(self.link_store@),
                self.chars@ == a + b,
                total == self.chars@.len(),
                forall|id: u64| tag_count(a + b, id) == tag_count(a, id) + tag_count(b, id),
                forall|id: u64| tag_count(a + b, id) <= total,
                store_map(self.link_store@) == merge_links(la, store_map(other.link_store@.subrange(0, k as int))),
            decreases n - k,
        {
            let ghost os = other.link_store@;
            let ghost p = store_map(os.subrange(0, k as int));
            proof {
                lemma_store_prefix(os, k as int);
                lemma_store_lookup(os, k as int);
            }
            let id = other.link_store[k].id;
            let add = other.link_store[k].count;
            let ghost v = (add as nat, os[k as int].url@);
            proof {
                lemma_merge_insert(la, p, id.0, v);
            }
            let ghost before = self.link_store@;
            match find_link(&self.link_store, id) {
                Some(j) => {
                    proof {
                        lemma_store_lookup(before, j as int);
                    }
                    let count = self.link_store[j].count;
                    assert(count + add == tag_count(a + b, id.0));
                    let url = self.link_store[j].url.clone();
                    self.link_store.set(j, LinkEntry { id, count: count + add, url });
                    proof {
                        lemma_store_update(before, j as int, self.link_store@[j as int]);
                    }
                },
                None => {
                    let url = other.link_store[k].url.clone();
                    self.link_store.push(LinkEntry { id, count: add, url });
                    proof {
                        lemma_store_push(before, self.link_store@.last());
                    }
                },
            }
            k = k + 1;
        }
        proof {
            assert(other.link_store@.subrange(0, n as int) =~= other.link_store@);
            let m = merge_links(la, lb);
            assert forall|id: u64| #[trigger] m.contains_key(id) <==> tag_count(a + b, id) > 0 by {}
            assert forall|id: u64| #[trigger] m.contains_key(id) implies m[id].0 == tag_count(a + b, id) by {}
        }
    }

    /// The plain characters of the buffer.
    pub fn as_string(&self) -> (r: String)
        ensures
            r@ == self.text().map_values(|rc: RichChar| rc.c),
    {
        let mut r = String::new();
        let n = self.chars.len();
        let mut i: usize = 0;
        while i < n
            invariant
                n == self.chars@.len(),
                i <= n,
                r@ == self.chars@.subrange(0, i as int).map_values(|rc: RichChar| rc.c),
            decreases n - i,
        {
            push_char(&mut r, self.chars[i].c);
            assert(self.chars@.subrange(0, i + 1).map_values(|rc: RichChar| rc.c) =~= self.chars@.subrange(
                0,
                i as int,
            ).map_values(|rc: RichChar| rc.c).push(self.chars@[i as int].c));
            i = i + 1;
        }
        assert(self.chars@.subrange(0, n as int) =~= self.chars@);
        r
    }
}

} // verus!
