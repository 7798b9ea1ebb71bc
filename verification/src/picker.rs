//! The picker of digraphs and emoji: tabs, a filter and a list.

use vstd::prelude::*;
use vstd::string::*;
use crate::chars;
use crate::strs;
use crate::strs::{cat3, clip, has_sub, sole_char, split_words};
use crate::fold;
use crate::text::{chars_of, piece, same};

verus! {

/// Where the picker opens.
#[derive(Copy, Clone, Debug, PartialEq, Eq, Structural)]
pub enum InitialTab {
    All,
    Digraphs,
    Emoji,
}

/// A group of glyphs: all, the digraphs, or a category of emoji.
#[derive(Copy, Clone, Debug, PartialEq, Eq, Structural)]
pub enum Tab {
    All,
    Digraphs,
    Emoji(usize),
}

/// A glyph, the two characters that stand for it (none for an emoji) and its
/// name.
pub struct Glyph {
    pub glyph: String,
    pub code: String,
    pub label: String,
}

#[verifier::ext_equal]
pub struct GlyphV {
    pub glyph: Seq<char>,
    pub code: Seq<char>,
    pub label: Seq<char>,
}

impl View for Glyph {
    type V = GlyphV;

    open spec fn view(&self) -> GlyphV {
        GlyphV { glyph: self.glyph@, code: self.code@, label: self.label@ }
    }
}

pub open spec fn glyphs_view(v: Seq<Glyph>) -> Seq<GlyphV> {
    Seq::new(v.len(), |i: int| v[i]@)
}

/// A category of emoji.
pub struct Category {
    pub name: String,
    pub items: Vec<Glyph>,
}

/// What there is to pick from.
pub struct Catalog {
    pub digraphs: Vec<Glyph>,
    pub emoji: Vec<Category>,
}

#[verifier::ext_equal]
pub struct CatalogV {
    pub digraphs: Seq<GlyphV>,
    pub emoji: Seq<(Seq<char>, Seq<GlyphV>)>,
}

impl View for Catalog {
    type V = CatalogV;

    open spec fn view(&self) -> CatalogV {
        CatalogV {
            digraphs: glyphs_view(self.digraphs@),
            emoji: Seq::new(
                self.emoji@.len(),
                |i: int| (self.emoji@[i].name@, glyphs_view(self.emoji@[i].items@)),
            ),
        }
    }
}

/// The tab after, of `n` categories of emoji.
pub open spec fn tab_after(t: Tab, n: int) -> Tab {
    match t {
        Tab::All => Tab::Digraphs,
        Tab::Digraphs => if n > 0 {
            Tab::Emoji(0)
        } else {
            Tab::All
        },
        Tab::Emoji(i) => if i + 1 < n {
            Tab::Emoji((i + 1) as usize)
        } else {
            Tab::All
        },
    }
}

pub open spec fn tab_before(t: Tab, n: int) -> Tab {
    match t {
        Tab::All => if n > 0 {
            Tab::Emoji((n - 1) as usize)
        } else {
            Tab::Digraphs
        },
        Tab::Digraphs => Tab::All,
        Tab::Emoji(i) => if i == 0 {
            Tab::Digraphs
        } else {
            Tab::Emoji((i - 1) as usize)
        },
    }
}

pub open spec fn title_of(t: Tab, c: CatalogV) -> Seq<char> {
    match t {
        Tab::All => "All"@,
        Tab::Digraphs => "Digraphs"@,
        Tab::Emoji(i) => if i < c.emoji.len() {
            c.emoji[i as int].0
        } else {
            "?"@
        },
    }
}

/// A tab of a catalog with `n` categories of emoji.
pub open spec fn tab_ok(t: Tab, n: int) -> bool {
    t matches Tab::Emoji(i) ==> i < n
}

/// Going one tab on and one back, or back and on, leads to the same tab.
pub proof fn law_tabs_cycle(t: Tab, n: int)
    requires
        0 <= n <= usize::MAX,
        tab_ok(t, n),
    ensures
        tab_ok(tab_after(t, n), n),
        tab_ok(tab_before(t, n), n),
        tab_before(tab_after(t, n), n) == t,
        tab_after(tab_before(t, n), n) == t,
{
}

impl Tab {
    pub fn title(self, c: &Catalog) -> (s: String)
        ensures
            s@ == title_of(self, c@),
    {
        match self {
            Tab::All => "All".to_owned(),
            Tab::Digraphs => "Digraphs".to_owned(),
            Tab::Emoji(i) => if i < c.emoji.len() {
                c.emoji[i].name.clone()
            } else {
                "?".to_owned()
            },
        }
    }

    pub fn next(self, n: usize) -> (t: Tab)
        ensures
            t == tab_after(self, n as int),
    {
        match self {
            Tab::All => Tab::Digraphs,
            Tab::Digraphs => if n > 0 {
                Tab::Emoji(0)
            } else {
                Tab::All
            },
            Tab::Emoji(i) => if i < n && i + 1 < n {
                Tab::Emoji(i + 1)
            } else {
                Tab::All
            },
        }
    }

    pub fn prev(self, n: usize) -> (t: Tab)
        ensures
            t == tab_before(self, n as int),
    {
        match self {
            Tab::All => if n > 0 {
                Tab::Emoji(n - 1)
            } else {
                Tab::Digraphs
            },
            Tab::Digraphs => Tab::All,
            Tab::Emoji(i) => if i == 0 {
                Tab::Digraphs
            } else {
                Tab::Emoji(i - 1)
            },
        }
    }
}

/// The glyphs of the first `n` categories.
pub open spec fn emoji_of(c: CatalogV, n: int) -> Seq<GlyphV>
    decreases n,
{
    if n <= 0 {
        Seq::empty()
    } else {
        emoji_of(c, n - 1) + c.emoji[n - 1].1
    }
}

/// The glyphs of a tab.
pub open spec fn glyphs_of(t: Tab, c: CatalogV) -> Seq<GlyphV> {
    match t {
        Tab::All => c.digraphs + emoji_of(c, c.emoji.len() as int),
        Tab::Digraphs => c.digraphs,
        Tab::Emoji(i) => if i < c.emoji.len() {
            c.emoji[i as int].1
        } else {
            Seq::empty()
        },
    }
}

/// Each of the first `n` words occurs in the glyph's code or label.
pub open spec fn has_words(g: GlyphV, ws: Seq<Seq<char>>, n: int) -> bool
    decreases n,
{
    if n <= 0 {
        true
    } else {
        let w = chars::lower_of(ws[n - 1]);
        has_words(g, ws, n - 1) && (strs::contains(chars::lower_of(g.code), w) || strs::contains(
            chars::lower_of(g.label),
            w,
        ))
    }
}

/// The glyph fits the query, in whatever case.
pub open spec fn fits(g: GlyphV, query: Seq<char>) -> bool {
    let ws = strs::words_from(query, 0);
    query.len() == 0 || has_words(g, ws, ws.len() as int)
}

/// Those of the first `n` glyphs that fit.
pub open spec fn fitting(gs: Seq<GlyphV>, query: Seq<char>, n: int) -> Seq<GlyphV>
    decreases n,
{
    if n <= 0 {
        Seq::empty()
    } else if fits(gs[n - 1], query) {
        fitting(gs, query, n - 1).push(gs[n - 1])
    } else {
        fitting(gs, query, n - 1)
    }
}

fn copy_glyph(g: &Glyph) -> (r: Glyph)
    ensures
        r@ == g@,
{
    Glyph { glyph: g.glyph.clone(), code: g.code.clone(), label: g.label.clone() }
}

/// Whether a glyph fits the query.
pub fn matches_query(g: &Glyph, query: &str) -> (r: bool)
    ensures
        r == fits(g@, query@),
{
    if chars_of(query).len() == 0 {
        return true;
    }
    let code: String = g.code.to_lowercase();
    let label: String = g.label.to_lowercase();
    let ws: Vec<String> = split_words(query);
    let ghost wv = strs::words_from(query@, 0);
    let ghost all = has_words(g@, wv, wv.len() as int);
    let mut i: usize = 0;
    while i < ws.len()
        invariant
            i <= ws.len(),
            wv == fold::views(ws@),
            wv == strs::words_from(query@, 0),
            query@.len() > 0,
            code@ == chars::lower_of(g@.code),
            label@ == chars::lower_of(g@.label),
            has_words(g@, wv, i as int),
        decreases ws.len() - i,
    {
        assert(wv[i as int] == ws@[i as int]@);
        let w: String = ws[i].to_lowercase();
        if !has_sub(&code, &w) && !has_sub(&label, &w) {
            proof {
                lemma_words(g@, wv, i + 1, wv.len() as int);
            }
            return false;
        }
        i += 1;
    }
    true
}

proof fn lemma_words(g: GlyphV, ws: Seq<Seq<char>>, i: int, n: int)
    requires
        i <= n,
        !has_words(g, ws, i),
    ensures
        !has_words(g, ws, n),
    decreases n - i,
{
    if i < n {
        lemma_words(g, ws, i, n - 1);
    }
}

fn add_fitting(out: &mut Vec<Glyph>, gs: &Vec<Glyph>, query: &str)
    ensures
        glyphs_view(final(out)@) == glyphs_view(old(out)@) + fitting(
            glyphs_view(gs@),
            query@,
            gs@.len() as int,
        ),
{
    let ghost base = glyphs_view(out@);
    let ghost gv = glyphs_view(gs@);
    let mut i: usize = 0;
    assert(base + fitting(gv, query@, 0) =~= base);
    while i < gs.len()
        invariant
            i <= gs.len(),
            gv == glyphs_view(gs@),
            glyphs_view(out@) == base + fitting(gv, query@, i as int),
        decreases gs.len() - i,
    {
        let ghost before = out@;
        assert(gv[i as int] == gs@[i as int]@);
        if matches_query(&gs[i], query) {
            out.push(copy_glyph(&gs[i]));
            assert(glyphs_view(out@) =~= glyphs_view(before).push(gv[i as int]));
            assert(base + fitting(gv, query@, i + 1) =~= (base + fitting(
                gv,
                query@,
                i as int,
            )).push(gv[i as int]));
        }
        i += 1;
    }
}

proof fn lemma_fitting_add(a: Seq<GlyphV>, b: Seq<GlyphV>, q: Seq<char>, n: int)
    requires
        0 <= n <= b.len(),
    ensures
        fitting(a + b, q, a.len() + n) == fitting(a, q, a.len() as int) + fitting(b, q, n),
    decreases n,
{
    if n == 0 {
        lemma_fitting_prefix(a, a + b, q, a.len() as int);
        assert(fitting(a, q, a.len() as int) + fitting(b, q, 0) =~= fitting(
            a,
            q,
            a.len() as int,
        ));
    } else {
        lemma_fitting_add(a, b, q, n - 1);
        assert((a + b)[a.len() + n - 1] == b[n - 1]);
        if fits(b[n - 1], q) {
            assert(fitting(a, q, a.len() as int) + fitting(b, q, n) =~= (fitting(
                a,
                q,
                a.len() as int,
            ) + fitting(b, q, n - 1)).push(b[n - 1]));
        }
    }
}

proof fn lemma_fitting_prefix(a: Seq<GlyphV>, b: Seq<GlyphV>, q: Seq<char>, n: int)
    requires
        0 <= n <= a.len(),
        n <= b.len(),
        forall|i: int| 0 <= i < n ==> a[i] == b[i],
    ensures
        fitting(a, q, n) == fitting(b, q, n),
    decreases n,
{
    if n > 0 {
        lemma_fitting_prefix(a, b, q, n - 1);
    }
}

/// What fits the query in a tab.
pub open spec fn listed(t: Tab, c: CatalogV, query: Seq<char>) -> Seq<GlyphV> {
    fitting(glyphs_of(t, c), query, glyphs_of(t, c).len() as int)
}

/// Whatever is listed fits the query.
pub proof fn law_listed_fit(gs: Seq<GlyphV>, query: Seq<char>, n: int, i: int)
    requires
        0 <= i < fitting(gs, query, n).len(),
    ensures
        fits(fitting(gs, query, n)[i], query),
    decreases n,
{
    if n > 0 && i < fitting(gs, query, n - 1).len() {
        law_listed_fit(gs, query, n - 1, i);
    }
}

/// The glyphs of a tab that fit the query.
pub fn entries_for(t: Tab, c: &Catalog, query: &str) -> (out: Vec<Glyph>)
    ensures
        glyphs_view(out@) == listed(t, c@, query@),
{
    let ghost cv = c@;
    let mut out: Vec<Glyph> = Vec::new();
    assert(glyphs_view(out@) =~= Seq::empty());
    match t {
        Tab::All => {
            add_fitting(&mut out, &c.digraphs, query);
            assert(glyphs_view(out@) =~= fitting(
                cv.digraphs + emoji_of(cv, 0),
                query@,
                cv.digraphs.len() as int,
            )) by {
                assert(cv.digraphs + emoji_of(cv, 0) =~= cv.digraphs);
            }
            let mut i: usize = 0;
            while i < c.emoji.len()
                invariant
                    i <= c.emoji.len(),
                    cv == c@,
                    glyphs_view(out@) == fitting(
                        cv.digraphs + emoji_of(cv, i as int),
                        query@,
                        (cv.digraphs + emoji_of(cv, i as int)).len() as int,
                    ),
                decreases c.emoji.len() - i,
            {
                let ghost a = cv.digraphs + emoji_of(cv, i as int);
                assert(cv.emoji[i as int].1 == glyphs_view(c.emoji@[i as int].items@));
                add_fitting(&mut out, &c.emoji[i].items, query);
                proof {
                    let b = cv.emoji[i as int].1;
                    lemma_fitting_add(a, b, query@, b.len() as int);
                    assert(a + b =~= cv.digraphs + emoji_of(cv, i + 1));
                }
                i += 1;
            }
        },
        Tab::Digraphs => {
            add_fitting(&mut out, &c.digraphs, query);
            assert(glyphs_view(out@) =~= listed(t, cv, query@));
        },
        Tab::Emoji(i) => {
            if i < c.emoji.len() {
                assert(cv.emoji[i as int].1 == glyphs_view(c.emoji@[i as int].items@));
                add_fitting(&mut out, &c.emoji[i].items, query);
                assert(glyphs_view(out@) =~= listed(t, cv, query@));
            }
        },
    }
    out
}

// ── The tab strip ───────────────────────────────────────────────────────

/// A label of the tab strip, and whether its tab is open.
pub open spec fn tab_label(t: Tab, open: Tab, c: CatalogV) -> (Seq<char>, bool) {
    (" "@ + title_of(t, c) + " "@, t == open)
}

/// The tabs in order.
pub open spec fn tab_number(k: int) -> Tab {
    if k == 0 {
        Tab::All
    } else if k == 1 {
        Tab::Digraphs
    } else {
        Tab::Emoji((k - 2) as usize)
    }
}

/// The first `n` labels in rows of at most `width` cells: the full rows, the
/// one being filled and its width. A row starts with two spaces, and a space
/// follows each label.
pub open spec fn packed(open: Tab, c: CatalogV, width: int, n: int) -> (
    Seq<Seq<(Seq<char>, bool)>>,
    Seq<(Seq<char>, bool)>,
    int,
)
    decreases n,
{
    if n <= 0 {
        (Seq::empty(), Seq::empty(), 2)
    } else {
        let (rows, row, w) = packed(open, c, width, n - 1);
        let l = tab_label(tab_number(n - 1), open, c);
        let k = l.0.len() as int + 1;
        if w + k > width && w > 2 {
            (rows.push(row), seq![l], 2 + k)
        } else {
            (rows, row.push(l), w + k)
        }
    }
}

/// The tab strip in rows.
pub open spec fn tab_rows(open: Tab, c: CatalogV) -> Seq<Seq<(Seq<char>, bool)>> {
    let (rows, row, w) = packed(open, c, 68, c.emoji.len() as int + 2);
    rows.push(row)
}

pub open spec fn labels_view(v: Seq<(String, bool)>) -> Seq<(Seq<char>, bool)> {
    Seq::new(v.len(), |i: int| (v[i].0@, v[i].1))
}

pub open spec fn rows_view(v: Seq<Vec<(String, bool)>>) -> Seq<Seq<(Seq<char>, bool)>> {
    Seq::new(v.len(), |i: int| labels_view(v[i]@))
}

fn nth_tab(k: usize) -> (t: Tab)
    ensures
        t == tab_number(k as int),
{
    if k == 0 {
        Tab::All
    } else if k == 1 {
        Tab::Digraphs
    } else {
        Tab::Emoji(k - 2)
    }
}

fn same_tab(a: Tab, b: Tab) -> (r: bool)
    ensures
        r == (a == b),
{
    match (a, b) {
        (Tab::All, Tab::All) => true,
        (Tab::Digraphs, Tab::Digraphs) => true,
        (Tab::Emoji(i), Tab::Emoji(j)) => i == j,
        _ => false,
    }
}

/// Packs the tab strip into rows.
pub fn pack_tabs(open: Tab, c: &Catalog) -> (out: Vec<Vec<(String, bool)>>)
    requires
        c.emoji.len() < usize::MAX - 2,
    ensures
        rows_view(out@) == tab_rows(open, c@),
{
    let n: usize = c.emoji.len() + 2;
    let mut rows: Vec<Vec<(String, bool)>> = Vec::new();
    let mut row: Vec<(String, bool)> = Vec::new();
    let mut w: u128 = 2;
    let mut k: usize = 0;
    assert(rows_view(rows@) =~= Seq::empty());
    assert(labels_view(row@) =~= Seq::empty());
    while k < n
        invariant
            k <= n,
            n == c.emoji.len() + 2,
            n < usize::MAX,
            2 <= w <= 2 + k * 0x1_0000_0000_0000_0000,
            (rows_view(rows@), labels_view(row@), w as int) == packed(open, c@, 68, k as int),
        decreases n - k,
    {
        let t: Tab = nth_tab(k);
        let label: String = cat3(" ", &t.title(c), " ");
        let len: usize = chars_of(&label).len();
        let ghost l = tab_label(t, open, c@);
        assert(w + len + 1 <= 2 + (k + 1) * 0x1_0000_0000_0000_0000);
        assert((k + 1) * 0x1_0000_0000_0000_0000 + 2 <= u128::MAX);
        let ghost before = row@;
        if w + len as u128 + 1 > 68 && w > 2 {
            let ghost rb = rows@;
            let mut full: Vec<(String, bool)> = Vec::new();
            std::mem::swap(&mut full, &mut row);
            rows.push(full);
            assert(rows_view(rows@) =~= rows_view(rb).push(labels_view(before)));
            row.push((label, same_tab(t, open)));
            assert(labels_view(row@) =~= seq![l]);
            w = 2 + len as u128 + 1;
        } else {
            row.push((label, same_tab(t, open)));
            assert(labels_view(row@) =~= labels_view(before).push(l));
            w = w + len as u128 + 1;
        }
        k += 1;
    }
    let ghost rb = rows@;
    let ghost lb = labels_view(row@);
    rows.push(row);
    assert(rows_view(rows@) =~= rows_view(rb).push(lb));
    rows
}

// ── The picker's state ──────────────────────────────────────────────────

pub struct Picker {
    pub tab: Tab,
    pub query: String,
    /// Number of the glyph that is lit.
    pub cursor: usize,
    /// Number of the first glyph that is shown.
    pub scroll: usize,
}

/// Model of a [`Picker`].
#[verifier::ext_equal]
pub struct PickerV {
    pub tab: Tab,
    pub query: Seq<char>,
    pub cursor: int,
    pub scroll: int,
}

impl View for Picker {
    type V = PickerV;

    open spec fn view(&self) -> PickerV {
        PickerV {
            tab: self.tab,
            query: self.query@,
            cursor: self.cursor as int,
            scroll: self.scroll as int,
        }
    }
}

/// What a key made of the picker.
pub enum Picked {
    Open,
    Cancelled,
    Glyph(String),
}

#[verifier::ext_equal]
pub enum PickedV {
    Open,
    Cancelled,
    Glyph(Seq<char>),
}

impl View for Picked {
    type V = PickedV;

    open spec fn view(&self) -> PickedV {
        match self {
            Picked::Open => PickedV::Open,
            Picked::Cancelled => PickedV::Cancelled,
            Picked::Glyph(g) => PickedV::Glyph(g@),
        }
    }
}

pub open spec fn less_one(n: int) -> int {
    if n > 0 {
        n - 1
    } else {
        0
    }
}

pub open spec fn minus(a: int, b: int) -> int {
    if a > b {
        a - b
    } else {
        0
    }
}

impl PickerV {
    pub open spec fn list(self, c: CatalogV) -> Seq<GlyphV> {
        listed(self.tab, c, self.query)
    }

    /// Rows that the list has in the popup.
    pub open spec fn body_rows(self, c: CatalogV) -> int {
        minus(22, 5 + tab_rows(self.tab, c).len() as int)
    }

    /// The lit glyph kept in the list and in sight.
    pub open spec fn framed(self, c: CatalogV) -> PickerV {
        let n = self.list(c).len();
        let b = self.body_rows(c);
        let cur = if self.cursor >= n {
            less_one(n as int)
        } else {
            self.cursor
        };
        let s = if cur < self.scroll {
            cur
        } else {
            self.scroll
        };
        PickerV {
            cursor: cur,
            scroll: if cur >= s + b {
                cur + 1 - b
            } else {
                s
            },
            ..self
        }
    }

    pub open spec fn at(self, cursor: int) -> PickerV {
        PickerV { cursor, ..self }
    }

    pub open spec fn top(self, tab: Tab, query: Seq<char>) -> PickerV {
        PickerV { tab, query, cursor: 0, scroll: 0 }
    }

    /// Keys that move the light through the list.
    pub open spec fn moved(self, c: CatalogV, k: Seq<char>) -> Option<PickerV> {
        let n = self.list(c).len() as int;
        let b = self.body_rows(c);
        if k == "j"@ || k == "DOWN"@ {
            Some(
                if self.cursor + 1 < n {
                    self.at(self.cursor + 1)
                } else {
                    self
                },
            )
        } else if k == "k"@ || k == "UP"@ {
            Some(self.at(less_one(self.cursor)))
        } else if k == "PgDOWN"@ || k == " "@ {
            Some(
                self.at(
                    if self.cursor + b < less_one(n) {
                        self.cursor + b
                    } else {
                        less_one(n)
                    },
                ),
            )
        } else if k == "PgUP"@ {
            Some(self.at(minus(self.cursor, b)))
        } else if k == "HOME"@ {
            Some(self.at(0))
        } else if k == "END"@ {
            Some(self.at(less_one(n)))
        } else {
            None
        }
    }

    /// A key typed into the picker.
    pub open spec fn key(self, c: CatalogV, k: Seq<char>) -> (PickerV, PickedV) {
        let list = self.list(c);
        if k == "ESC"@ || k == "C-C"@ {
            (self, PickedV::Cancelled)
        } else if k == "ENTER"@ || k == "\n"@ || k == "\r"@ || k == "C-M"@ || k == "C-J"@ {
            (
                self,
                if self.cursor < list.len() {
                    PickedV::Glyph(list[self.cursor].glyph)
                } else {
                    PickedV::Open
                },
            )
        } else if k == "TAB"@ {
            (self.top(tab_after(self.tab, c.emoji.len() as int), self.query), PickedV::Open)
        } else if k == "S-TAB"@ || k == "BACK_TAB"@ {
            (self.top(tab_before(self.tab, c.emoji.len() as int), self.query), PickedV::Open)
        } else if let Some(p) = self.moved(c, k) {
            (p, PickedV::Open)
        } else if k == "BACK"@ || k == "BACKSPACE"@ || k == "C-H"@ {
            (
                if self.query.len() > 0 {
                    self.top(self.tab, self.query.drop_last())
                } else {
                    self
                },
                PickedV::Open,
            )
        } else {
            match strs::sole(k) {
                Some(x) if !chars::is_ctrl(x) => (
                    self.top(self.tab, self.query.push(x)),
                    PickedV::Open,
                ),
                _ => (self, PickedV::Open),
            }
        }
    }
}

pub open spec fn first_tab(t: InitialTab, n: int) -> Tab {
    match t {
        InitialTab::All => Tab::All,
        InitialTab::Digraphs => Tab::Digraphs,
        InitialTab::Emoji => if n > 0 {
            Tab::Emoji(0)
        } else {
            Tab::All
        },
    }
}

impl Picker {
    /// Opens the picker.
    pub fn pick(t: InitialTab, c: &Catalog) -> (p: Picker)
        ensures
            p@ == (PickerV {
                tab: first_tab(t, c@.emoji.len() as int),
                query: Seq::empty(),
                cursor: 0,
                scroll: 0,
            }),
    {
        let q: String = String::new();
        assert(q@ =~= Seq::empty());
        let tab: Tab = match t {
            InitialTab::All => Tab::All,
            InitialTab::Digraphs => Tab::Digraphs,
            InitialTab::Emoji => if c.emoji.len() > 0 {
                Tab::Emoji(0)
            } else {
                Tab::All
            },
        };
        Picker { tab, query: q, cursor: 0, scroll: 0 }
    }

    pub fn body_rows(&self, c: &Catalog) -> (n: usize)
        requires
            c.emoji.len() < usize::MAX - 2,
        ensures
            n == self@.body_rows(c@),
            n <= 22,
    {
        let rows: Vec<Vec<(String, bool)>> = pack_tabs(self.tab, c);
        assert(rows_view(rows@).len() == rows@.len());
        if rows.len() < 17 {
            17 - rows.len()
        } else {
            0
        }
    }

    /// Keeps the lit glyph in the list and in sight.
    pub fn frame(&mut self, c: &Catalog)
        requires
            c.emoji.len() < usize::MAX - 2,
        ensures
            final(self)@ == old(self)@.framed(c@),
    {
        let list: Vec<Glyph> = entries_for(self.tab, c, &self.query);
        let n: usize = list.len();
        assert(glyphs_view(list@).len() == n);
        let b: usize = self.body_rows(c);
        if self.cursor >= n {
            self.cursor = if n > 0 {
                n - 1
            } else {
                0
            };
        }
        if self.cursor < self.scroll {
            self.scroll = self.cursor;
        }
        if self.cursor - self.scroll >= b {
            if b > 0 {
                self.scroll = self.cursor - (b - 1);
            } else {
                self.scroll = self.cursor.saturating_add(1);
            }
        }
    }

    fn list_len(&self, c: &Catalog) -> (n: usize)
        ensures
            n == self@.list(c@).len(),
    {
        let list: Vec<Glyph> = entries_for(self.tab, c, &self.query);
        assert(glyphs_view(list@).len() == list@.len());
        list.len()
    }

    fn move_key(&mut self, c: &Catalog, k: &str) -> (r: bool)
        requires
            c.emoji.len() < usize::MAX - 2,
        ensures
            match old(self)@.moved(c@, k@) {
                Some(p) => r && final(self)@ == p,
                None => !r && final(self)@ == old(self)@,
            },
    {
        let n: usize = self.list_len(c);
        let last: usize = if n > 0 {
            n - 1
        } else {
            0
        };
        if same(k, "j") || same(k, "DOWN") {
            if self.cursor < last {
                self.cursor = self.cursor + 1;
            }
        } else if same(k, "k") || same(k, "UP") {
            if self.cursor > 0 {
                self.cursor = self.cursor - 1;
            }
        } else if same(k, "PgDOWN") || same(k, " ") {
            let b: usize = self.body_rows(c);
            self.cursor = if self.cursor < last && b < last - self.cursor {
                self.cursor + b
            } else {
                last
            };
        } else if same(k, "PgUP") {
            let b: usize = self.body_rows(c);
            self.cursor = if self.cursor > b {
                self.cursor - b
            } else {
                0
            };
        } else if same(k, "HOME") {
            self.cursor = 0;
        } else if same(k, "END") {
            self.cursor = last;
        } else {
            return false;
        }
        true
    }

    fn to_top(&mut self, t: Tab, q: String)
        ensures
            final(self)@ == old(self)@.top(t, q@),
    {
        self.tab = t;
        self.query = q;
        self.cursor = 0;
        self.scroll = 0;
    }

    /// Takes a key.
    pub fn key(&mut self, c: &Catalog, k: &str) -> (r: Picked)
        requires
            c.emoji.len() < usize::MAX - 2,
        ensures
            final(self)@ == old(self)@.key(c@, k@).0,
            r@ == old(self)@.key(c@, k@).1,
    {
        if same(k, "ESC") || same(k, "C-C") {
            return Picked::Cancelled;
        }
        if same(k, "ENTER") || same(k, "\n") || same(k, "\r") || same(k, "C-M") || same(k, "C-J") {
            let list: Vec<Glyph> = entries_for(self.tab, c, &self.query);
            assert(glyphs_view(list@).len() == list@.len());
            if self.cursor < list.len() {
                assert(glyphs_view(list@)[self.cursor as int] == list@[self.cursor as int]@);
                return Picked::Glyph(list[self.cursor].glyph.clone());
            }
            return Picked::Open;
        }
        if same(k, "TAB") {
            let t: Tab = self.tab.next(c.emoji.len());
            self.to_top(t, self.query.clone());
            return Picked::Open;
        }
        if same(k, "S-TAB") || same(k, "BACK_TAB") {
            let t: Tab = self.tab.prev(c.emoji.len());
            self.to_top(t, self.query.clone());
            return Picked::Open;
        }
        if self.move_key(c, k) {
            return Picked::Open;
        }
        if same(k, "BACK") || same(k, "BACKSPACE") || same(k, "C-H") {
            let v: Vec<char> = chars_of(&self.query);
            if v.len() > 0 {
                let q: String = piece(&v, 0, v.len() - 1);
                assert(q@ =~= self.query@.drop_last());
                self.to_top(self.tab, q);
            }
            return Picked::Open;
        }
        if let Some(x) = sole_char(k) {
            if !x.is_control() {
                let mut q: String = self.query.clone();
                q.push(x);
                self.to_top(self.tab, q);
            }
        }
        Picked::Open
    }

    /// The rows of the list that are shown: the glyph, its code and its label
    /// as far as there is room, and whether it is lit.
    pub fn rows(&self, c: &Catalog) -> (out: Vec<(Glyph, bool)>)
        requires
            c.emoji.len() < usize::MAX - 2,
        ensures
            Seq::new(out@.len(), |i: int| (out@[i].0@, out@[i].1)) == shown(self@, c@),
    {
        let list: Vec<Glyph> = entries_for(self.tab, c, &self.query);
        let ghost lv = self@.list(c@);
        assert(lv.len() == list@.len());
        let b: usize = self.body_rows(c);
        let mut out: Vec<(Glyph, bool)> = Vec::new();
        let mut k: usize = 0;
        while k < b && self.scroll < list.len() && k < list.len() - self.scroll
            invariant
                k <= b,
                self.scroll < list.len() ==> k <= list.len() - self.scroll,
                self.scroll >= list.len() ==> k == 0,
                lv == glyphs_view(list@),
                lv == self@.list(c@),
                b == self@.body_rows(c@),
                out@.len() == k,
                forall|i: int| #![trigger out@[i]]
                    0 <= i < k ==> (out@[i].0@, out@[i].1) == shown_row(
                        lv[self.scroll + i],
                        self.scroll + i == self.cursor,
                    ),
            decreases b - k,
        {
            let j: usize = self.scroll + k;
            assert(lv[j as int] == list@[j as int]@);
            let g: Glyph = Glyph {
                glyph: list[j].glyph.clone(),
                code: list[j].code.clone(),
                label: clip(&list[j].label, 58),
            };
            out.push((g, j == self.cursor));
            k += 1;
        }
        assert(Seq::new(out@.len(), |i: int| (out@[i].0@, out@[i].1)) =~= shown(self@, c@));
        out
    }
}

pub open spec fn shown_row(g: GlyphV, lit: bool) -> (GlyphV, bool) {
    (GlyphV { label: strs::clipped(g.label, 58), ..g }, lit)
}

/// The rows of the list in the popup.
pub open spec fn shown(p: PickerV, c: CatalogV) -> Seq<(GlyphV, bool)> {
    let l = p.list(c);
    let left = minus(l.len() as int, p.scroll);
    let n = if p.body_rows(c) < left {
        p.body_rows(c)
    } else {
        left
    };
    Seq::new(n as nat, |i: int| shown_row(l[p.scroll + i], p.scroll + i == p.cursor))
}

/// A glyph fits a query where each of its words occurs in the glyph's code or
/// label, in whatever case; with no word in it everything fits.
pub proof fn law_fits(g: GlyphV, query: Seq<char>)
    ensures
        ({
            let ws = strs::words_from(query, 0);
            fits(g, query) <==> query.len() == 0 || forall|k: int|
                0 <= k < ws.len() ==> strs::contains(
                    chars::lower_of(g.code),
                    chars::lower_of(#[trigger] ws[k]),
                ) || strs::contains(chars::lower_of(g.label), chars::lower_of(ws[k]))
        }),
{
    let ws = strs::words_from(query, 0);
    lemma_has_words(g, ws, ws.len() as int);
}

proof fn lemma_has_words(g: GlyphV, ws: Seq<Seq<char>>, n: int)
    requires
        0 <= n <= ws.len(),
    ensures
        has_words(g, ws, n) <==> forall|k: int|
            0 <= k < n ==> strs::contains(
                chars::lower_of(g.code),
                chars::lower_of(#[trigger] ws[k]),
            ) || strs::contains(chars::lower_of(g.label), chars::lower_of(ws[k])),
    decreases n,
{
    if n > 0 {
        lemma_has_words(g, ws, n - 1);
    }
}

/// What is listed keeps the order of the catalog, and leaves out only what
/// does not fit.
pub proof fn law_fitting_in_order(a: Seq<GlyphV>, g: GlyphV, b: Seq<GlyphV>, query: Seq<char>, n: int)
    requires
        0 <= n <= b.len(),
    ensures
        fitting(a.push(g) + b, query, a.len() + 1 + n) == fitting(a, query, a.len() as int) + (if fits(
            g,
            query,
        ) {
            seq![g]
        } else {
            Seq::empty()
        }) + fitting(b, query, n),
    decreases n,
{
    let s = a.push(g) + b;
    if n == 0 {
        lemma_fitting_head(a, s, query, a.len() as int);
        assert(s[a.len() as int] == g);
        let f = fitting(a, query, a.len() as int);
        assert(fitting(s, query, (a.len() + 1) as int) =~= f + (if fits(g, query) {
            seq![g]
        } else {
            Seq::empty()
        }) + Seq::<GlyphV>::empty());
    } else {
        law_fitting_in_order(a, g, b, query, n - 1);
        assert(s[a.len() + n] == b[n - 1]);
        let f = fitting(a, query, a.len() as int) + (if fits(g, query) {
            seq![g]
        } else {
            Seq::empty()
        });
        if fits(b[n - 1], query) {
            assert(f + fitting(b, query, n - 1).push(b[n - 1]) =~= (f + fitting(
                b,
                query,
                n - 1,
            )).push(b[n - 1]));
        }
    }
}

proof fn lemma_fitting_head(a: Seq<GlyphV>, s: Seq<GlyphV>, query: Seq<char>, n: int)
    requires
        0 <= n <= a.len() <= s.len(),
        forall|k: int| 0 <= k < a.len() ==> #[trigger] s[k] == a[k],
    ensures
        fitting(s, query, n) == fitting(a, query, n),
    decreases n,
{
    if n > 0 {
        assert(s[n - 1] == a[n - 1]);
        lemma_fitting_head(a, s, query, n - 1);
    }
}

/// However the light and the list stood, after framing the light is on a row
/// of the list, if it has any, and that row is shown and is the one that is
/// lit.
pub proof fn law_light_in_sight(p: PickerV, c: CatalogV)
    requires
        p.list(c).len() > 0,
        p.body_rows(c) > 0,
        0 <= p.cursor,
        0 <= p.scroll,
    ensures
        ({
            let q = p.framed(c);
            let rows = shown(q, c);
            &&& 0 <= q.cursor < p.list(c).len()
            &&& p.cursor < p.list(c).len() ==> q.cursor == p.cursor
            &&& q.scroll <= q.cursor < q.scroll + rows.len()
            &&& q.tab == p.tab && q.query == p.query
            &&& forall|i: int| 0 <= i < rows.len() ==> (#[trigger] rows[i]).1 == (i == q.cursor - q.scroll)
            &&& forall|i: int|
                0 <= i < rows.len() ==> (#[trigger] rows[i]).0.glyph == p.list(c)[q.scroll + i].glyph
            &&& p.scroll <= p.cursor < p.list(c).len() && p.cursor < p.scroll + p.body_rows(c) ==> q
                == p
        }),
{
}

proof fn lemma_keys_apart(k: Seq<char>)
    requires
        k == "j"@ || k == "k"@ || k == "HOME"@ || k == "END"@ || k == "ENTER"@ || k == "BACK"@,
    ensures
        k != "ESC"@ && k != "C-C"@ && k != "TAB"@ && k != "S-TAB"@ && k != "BACK_TAB"@,
        k != "ENTER"@ ==> k != "\n"@ && k != "\r"@ && k != "C-M"@ && k != "C-J"@,
        k == "BACK"@ ==> k != "j"@ && k != "DOWN"@ && k != "k"@ && k != "UP"@ && k != "PgDOWN"@ && k
            != " "@ && k != "PgUP"@ && k != "HOME"@ && k != "END"@ && k != "ENTER"@,
        k == "j"@ || k == "k"@ || k == "HOME"@ || k == "END"@ ==> k != "ENTER"@,
        k == "k"@ ==> k != "j"@ && k != "DOWN"@,
        k == "HOME"@ || k == "END"@ ==> k != "j"@ && k != "DOWN"@ && k != "k"@ && k != "UP"@ && k
            != "PgDOWN"@ && k != " "@ && k != "PgUP"@,
        k == "END"@ ==> k != "HOME"@,
{
    reveal_strlit("j");
    reveal_strlit("k");
    reveal_strlit("HOME");
    reveal_strlit("END");
    reveal_strlit("ENTER");
    reveal_strlit("BACK");
    reveal_strlit("ESC");
    reveal_strlit("C-C");
    reveal_strlit("TAB");
    reveal_strlit("S-TAB");
    reveal_strlit("BACK_TAB");
    reveal_strlit("\n");
    reveal_strlit("\r");
    reveal_strlit("C-M");
    reveal_strlit("C-J");
    reveal_strlit("DOWN");
    reveal_strlit("UP");
    reveal_strlit("PgDOWN");
    reveal_strlit(" ");
    reveal_strlit("PgUP");
    assert("j"@.len() == 1 && "k"@.len() == 1 && "HOME"@.len() == 4 && "END"@.len() == 3 && "ENTER"@.len() == 5 && "BACK"@.len() == 4 && "ESC"@.len() == 3 && "C-C"@.len() == 3 && "TAB"@.len() == 3 && "S-TAB"@.len() == 5);
    assert("BACK_TAB"@.len() == 8 && "\n"@.len() == 1 && "\r"@.len() == 1 && "C-M"@.len() == 3 && "C-J"@.len() == 3 && "DOWN"@.len() == 4 && "UP"@.len() == 2 && "PgDOWN"@.len() == 6 && " "@.len() == 1 && "PgUP"@.len() == 4);
    assert("j"@[0] == 'j' && "k"@[0] == 'k' && " "@[0] == ' ' && "\n"@[0] == '\n' && "\r"@[0] == '\r');
    assert("BACK"@[0] == 'B' && "HOME"@[0] == 'H' && "END"@[0] == 'E' && "ESC"@[1] == 'S' && "END"@[1]
        == 'N');
    assert("DOWN"@[0] == 'D' && "PgUP"@[0] == 'P' && "TAB"@[0] == 'T' && "C-C"@[0] == 'C' && "C-M"@[0]
        == 'C' && "C-J"@[0] == 'C');
    assert("ENTER"@[0] == 'E' && "S-TAB"@[0] == 'S');
}

/// Down and up lead back, the ends lead to the first and the last glyph, and
/// ENTER takes the glyph that is lit.
pub proof fn law_picker_keys(p: PickerV, c: CatalogV)
    requires
        0 <= p.cursor < p.list(c).len(),
    ensures
        ({
            let n = p.list(c).len();
            let down = p.key(c, "j"@).0;
            &&& p.cursor + 1 < n ==> down.cursor == p.cursor + 1 && down.key(c, "k"@).0 == p
            &&& p.cursor + 1 == n ==> down == p
            &&& p.key(c, "HOME"@).0.cursor == 0
            &&& p.key(c, "END"@).0.cursor == n - 1
            &&& p.key(c, "ENTER"@) == (p, PickedV::Glyph(p.list(c)[p.cursor].glyph))
        }),
{
    lemma_keys_apart("j"@);
    lemma_keys_apart("k"@);
    lemma_keys_apart("HOME"@);
    lemma_keys_apart("END"@);
    lemma_keys_apart("ENTER"@);
}

/// Taking back a letter of the query gives the query before it.
pub proof fn law_query_taken_back(p: PickerV, c: CatalogV, x: char)
    ensures
        p.top(p.tab, p.query.push(x)).key(c, "BACK"@).0 == p.top(p.tab, p.query),
{
    lemma_keys_apart("BACK"@);
    assert(p.query.push(x).drop_last() =~= p.query);
}

} // verus!
