//! Keys on their way to the modes: key maps, macros and recording.
//!
//! A key that sets off others puts them into the editor's feed. The shell
//! takes a typed key to [`Editor::handle_key`] and then calls
//! [`Editor::next_key`] until the feed is empty.

use vstd::prelude::*;
use vstd::string::*;
use crate::editor::repeat;
use crate::editor::repeat::push_feed;
use crate::editor::state;
use crate::editor::state::{Action, ActionV, Editor, EdV, Feed, FeedV, KeyMap, KeyMapV};
use crate::editor::typing;
use crate::fold;
use crate::keys;
use crate::keys::{key_to_macro_text, parse_macro_text};
use crate::mode::Mode;
use crate::search::Direction;
use crate::strs;
use crate::strs::{cat2, strip_prefix, trim};
use crate::text::{chars_of, piece, same};

verus! {

/// What key maps call a mode.
pub open spec fn map_mode(m: Mode) -> Seq<char> {
    match m {
        Mode::Normal => "normal"@,
        Mode::Insert | Mode::Replace => "insert"@,
        Mode::Visual | Mode::VisualLine | Mode::VisualBlock => "visual"@,
        Mode::Command => ""@,
    }
}

fn map_mode_name(m: Mode) -> (s: &'static str)
    ensures
        s@ == map_mode(m),
{
    match m {
        Mode::Normal => "normal",
        Mode::Insert | Mode::Replace => "insert",
        Mode::Visual | Mode::VisualLine | Mode::VisualBlock => "visual",
        Mode::Command => "",
    }
}

/// What the first map from number `i` on for just these keys types.
pub open spec fn map_for(maps: Seq<KeyMapV>, mode: Seq<char>, ks: Seq<Seq<char>>, i: int) -> Option<
    Seq<char>,
>
    decreases maps.len() - i,
{
    if i < 0 || i >= maps.len() {
        None
    } else if maps[i].mode == mode && maps[i].lhs == ks {
        Some(maps[i].rhs)
    } else {
        map_for(maps, mode, ks, i + 1)
    }
}

/// Whether a map of two keys, from number `i` on, starts with the key.
pub open spec fn starts_map(maps: Seq<KeyMapV>, mode: Seq<char>, key: Seq<char>, i: int) -> bool
    decreases maps.len() - i,
{
    if i < 0 || i >= maps.len() {
        false
    } else {
        maps[i].mode == mode && maps[i].lhs.len() == 2 && maps[i].lhs[0] == key || starts_map(
            maps,
            mode,
            key,
            i + 1,
        )
    }
}

/// The keys from number `i` on as they wait to be fed: the first one last.
pub open spec fn map_feed(ks: Seq<Seq<char>>, i: int) -> Seq<FeedV>
    decreases ks.len() - i,
{
    if i < 0 || i >= ks.len() {
        Seq::empty()
    } else {
        map_feed(ks, i + 1).push(FeedV::MapKey(ks[i]))
    }
}

/// A search pattern taken out of the feed: what stays in the feed, the
/// pattern, and whether it was cancelled.
pub open spec fn drained(feed: Seq<FeedV>, pat: Seq<char>) -> (Seq<FeedV>, Seq<char>, bool)
    decreases feed.len(),
{
    if feed.len() == 0 {
        (feed, pat, false)
    } else {
        match feed.last() {
            FeedV::MapKey(k) => {
                let rest = feed.drop_last();
                if k == "ENTER"@ {
                    (rest, pat, false)
                } else if k == "ESC"@ {
                    (rest, pat, true)
                } else if k == "BACKSPACE"@ || k == "DEL"@ {
                    drained(
                        rest,
                        if pat.len() > 0 {
                            pat.drop_last()
                        } else {
                            pat
                        },
                    )
                } else if k.len() == 1 {
                    drained(rest, pat + k)
                } else {
                    drained(rest, pat)
                }
            },
            _ => (feed, pat, false),
        }
    }
}

/// The feed without the keys of a map on top.
pub open spec fn without_map(feed: Seq<FeedV>) -> Seq<FeedV>
    decreases feed.len(),
{
    if feed.len() > 0 && feed.last() is MapKey {
        without_map(feed.drop_last())
    } else {
        feed
    }
}

/// Whether a key waits whose mapped prefix is being played.
pub open spec fn holds_rest(feed: Seq<FeedV>, n: int) -> bool
    decreases n,
{
    n > 0 && (feed[n - 1] is Rest || holds_rest(feed, n - 1))
}

impl EdV {
    /// A key in a mode, past the key maps.
    #[verifier::opaque]
    pub open spec fn own_key(self, m: Mode, key: Seq<char>) -> (EdV, ActionV) {
        match m {
            Mode::Normal => self.normal_key(key),
            Mode::Insert => self.insert_key(key),
            Mode::Replace => self.replace_key(key),
            Mode::Visual | Mode::VisualLine | Mode::VisualBlock => self.visual_key(key),
            Mode::Command => typing::quiet(self),
        }
    }

    /// What a key map types: an ex command after a colon, else keys.
    #[verifier::opaque]
    pub open spec fn run_map(self, rhs: Seq<char>) -> (EdV, ActionV) {
        match strs::after_prefix(rhs, ":"@) {
            Some(c) => self.command(strs::trimmed(c)),
            None => typing::quiet(
                EdV {
                    map_depth: state::plus(self.map_depth, 1),
                    feed: self.feed.push(FeedV::MapEnd) + map_feed(keys::decoded(rhs, 0), 0),
                    ..self
                },
            ),
        }
    }

    /// The first key of a two-key map whose second did not come: it is played
    /// as itself, and then the other key.
    #[verifier::opaque]
    pub open spec fn play_prefix(self, m: Mode, prev: Seq<char>, key: Seq<char>) -> (EdV, ActionV) {
        EdV {
            map_depth: state::plus(self.map_depth, 1),
            feed: self.feed.push(FeedV::Rest(m, key)).push(FeedV::MapEnd),
            ..self
        }.own_key(m, prev)
    }

    /// A key in a mode. Maps do not apply to keys that a map types.
    #[verifier::opaque]
    pub open spec fn mode_key(self, m: Mode, key: Seq<char>) -> (EdV, ActionV) {
        let name = map_mode(m);
        if m is Command || self.map_depth > 0 || self.keymaps.len() == 0 {
            self.own_key(m, key)
        } else {
            match self.map_pending {
                Some(prev) => {
                    let s = EdV { map_pending: None, ..self };
                    match map_for(self.keymaps, name, seq![prev, key], 0) {
                        Some(rhs) => s.run_map(rhs),
                        None => s.play_prefix(m, prev, key),
                    }
                },
                None => match map_for(self.keymaps, name, seq![key], 0) {
                    Some(rhs) => self.run_map(rhs),
                    None => if starts_map(self.keymaps, name, key, 0) {
                        typing::quiet(EdV { map_pending: Some(key), ..self })
                    } else {
                        self.own_key(m, key)
                    },
                },
            }
        }
    }

    /// A search out of a key map: the keys that follow are the pattern.
    #[verifier::opaque]
    pub open spec fn fed_search(self, d: Direction) -> EdV {
        let (rest, pat, cancelled) = drained(self.feed, Seq::empty());
        let s = EdV { feed: rest, ..self };
        if cancelled {
            s
        } else {
            s.search_for(pat, d)
        }
    }

    /// The next key of the feed.
    #[verifier::opaque]
    pub open spec fn fed(self) -> (EdV, ActionV) {
        let s = EdV { feed: self.feed.drop_last(), ..self };
        match self.feed.last() {
            FeedV::MacroKey(k) => s.mode_key(s.mode, k),
            FeedV::MapKey(k) => if k == "/"@ && s.mode is Normal {
                typing::quiet(s.fed_search(Direction::Forward))
            } else if k == "?"@ && s.mode is Normal {
                typing::quiet(s.fed_search(Direction::Backward))
            } else {
                s.mode_key(s.mode, k)
            },
            FeedV::MacroEnd => typing::quiet(
                EdV { replay_depth: state::minus(s.replay_depth, 1), ..s },
            ),
            FeedV::MapEnd => typing::quiet(EdV { map_depth: state::minus(s.map_depth, 1), ..s }),
            FeedV::Rest(m, k) => s.own_key(m, k),
            FeedV::Typed(k, r) => typing::quiet(
                if s.recording == r {
                    EdV { recorded: s.recorded + keys::encoded(k), ..s }
                } else {
                    s
                },
            ),
        }
    }

    /// A typed key. While recording it is recorded, unless it starts or ends
    /// the recording.
    #[verifier::opaque]
    pub open spec fn typed_key(self, key: Seq<char>) -> (EdV, ActionV) {
        let s = if self.recording is Some {
            EdV { feed: self.feed.push(FeedV::Typed(key, self.recording)), ..self }
        } else {
            self
        };
        s.mode_key(s.mode, key)
    }

    /// The editor is to quit: the keys of a map that are left are dropped.
    pub open spec fn quitting(self) -> EdV {
        EdV { feed: without_map(self.feed), ..self }
    }

    /// Whether a command to quit is heeded: not in a macro, nor where the
    /// first key of a map is played as itself.
    pub open spec fn may_quit(self) -> bool {
        self.replay_depth == 0 && !holds_rest(self.feed, self.feed.len() as int)
    }
}

fn same_keys(lhs: &Vec<String>, ks: &Vec<String>) -> (r: bool)
    ensures
        r == (fold::views(lhs@) == fold::views(ks@)),
{
    if lhs.len() != ks.len() {
        assert(fold::views(lhs@).len() != fold::views(ks@).len());
        return false;
    }
    let mut i: usize = 0;
    while i < lhs.len()
        invariant
            i <= lhs.len(),
            lhs.len() == ks.len(),
            forall|j: int| 0 <= j < i ==> (#[trigger] lhs@[j])@ == ks@[j]@,
        decreases lhs.len() - i,
    {
        if !same(&lhs[i], &ks[i]) {
            assert(fold::views(lhs@)[i as int] != fold::views(ks@)[i as int]);
            return false;
        }
        i += 1;
    }
    assert(fold::views(lhs@) =~= fold::views(ks@));
    true
}

impl Editor {
    fn find_map(&self, mode: &str, ks: &Vec<String>) -> (r: Option<String>)
        ensures
            crate::buffer::str_opt(r) == map_for(self@.keymaps, mode@, fold::views(ks@), 0),
    {
        let mut i: usize = 0;
        while i < self.keymaps.len()
            invariant
                i <= self.keymaps.len(),
                map_for(self@.keymaps, mode@, fold::views(ks@), 0) == map_for(
                    self@.keymaps,
                    mode@,
                    fold::views(ks@),
                    i as int,
                ),
            decreases self.keymaps.len() - i,
        {
            assert(self@.keymaps[i as int] == self.keymaps@[i as int]@);
            let m: &KeyMap = &self.keymaps[i];
            if same(&m.mode, mode) && same_keys(&m.lhs, ks) {
                return Some(m.rhs.clone());
            }
            i += 1;
        }
        None
    }

    fn is_map_prefix(&self, mode: &str, key: &str) -> (r: bool)
        ensures
            r == starts_map(self@.keymaps, mode@, key@, 0),
    {
        let mut i: usize = 0;
        while i < self.keymaps.len()
            invariant
                i <= self.keymaps.len(),
                starts_map(self@.keymaps, mode@, key@, 0) == starts_map(
                    self@.keymaps,
                    mode@,
                    key@,
                    i as int,
                ),
            decreases self.keymaps.len() - i,
        {
            assert(self@.keymaps[i as int] == self.keymaps@[i as int]@);
            let m: &KeyMap = &self.keymaps[i];
            if same(&m.mode, mode) && m.lhs.len() == 2 && same(&m.lhs[0], key) {
                return true;
            }
            i += 1;
        }
        false
    }

    /// A key in a mode, past the key maps.
    pub fn own_key(&mut self, m: Mode, key: &str) -> (act: Action)
        requires
            old(self).wf(),
        ensures
            typing::gave(final(self)@, act@, old(self)@.own_key(m, key@)),
            final(self).wf(),
    {
        proof {
            reveal(EdV::own_key);
        }
        match m {
            Mode::Normal => self.handle_normal(key),
            Mode::Insert => self.handle_insert(key),
            Mode::Replace => self.handle_replace(key),
            Mode::Visual | Mode::VisualLine | Mode::VisualBlock => self.handle_visual(key),
            Mode::Command => Action::Nothing,
        }
    }

    /// Runs what a key map types.
    pub fn run_keymap_rhs(&mut self, rhs: &str) -> (act: Action)
        requires
            old(self).wf(),
        ensures
            typing::gave(final(self)@, act@, old(self)@.run_map(rhs@)),
            final(self).wf(),
    {
        proof {
            reveal(EdV::run_map);
        }
        if let Some(c) = strip_prefix(rhs, ":") {
            return self.execute_command(&trim(&c));
        }
        let ks: Vec<String> = parse_macro_text(rhs);
        self.map_depth = self.map_depth.saturating_add(1);
        push_feed(&mut self.feed, Feed::MapEnd);
        feed_map(&mut self.feed, &ks);
        Action::Nothing
    }

    fn play_prefix(&mut self, m: Mode, prev: &str, key: &str) -> (act: Action)
        requires
            old(self).wf(),
        ensures
            typing::gave(final(self)@, act@, old(self)@.play_prefix(m, prev@, key@)),
            final(self).wf(),
    {
        proof {
            reveal(EdV::play_prefix);
        }
        self.map_depth = self.map_depth.saturating_add(1);
        push_feed(&mut self.feed, Feed::Rest(m, key.to_owned()));
        push_feed(&mut self.feed, Feed::MapEnd);
        self.own_key(m, prev)
    }

    /// A key in a mode.
    pub fn mode_key(&mut self, m: Mode, key: &str) -> (act: Action)
        requires
            old(self).wf(),
        ensures
            typing::gave(final(self)@, act@, old(self)@.mode_key(m, key@)),
            final(self).wf(),
    {
        proof {
            reveal(EdV::mode_key);
        }
        let command: bool = matches!(m, Mode::Command);
        if command || self.map_depth > 0 || self.keymaps.len() == 0 {
            return self.own_key(m, key);
        }
        let name: &str = map_mode_name(m);
        let mut held: Option<String> = None;
        std::mem::swap(&mut held, &mut self.map_pending);
        match held {
            Some(prev) => {
                let ks: Vec<String> = vec![prev.clone(), key.to_owned()];
                assert(fold::views(ks@) =~= seq![prev@, key@]);
                match self.find_map(name, &ks) {
                    Some(rhs) => self.run_keymap_rhs(&rhs),
                    None => self.play_prefix(m, &prev, key),
                }
            },
            None => {
                let ks: Vec<String> = vec![key.to_owned()];
                assert(fold::views(ks@) =~= seq![key@]);
                match self.find_map(name, &ks) {
                    Some(rhs) => self.run_keymap_rhs(&rhs),
                    None => {
                        if self.is_map_prefix(name, key) {
                            self.map_pending = Some(key.to_owned());
                            Action::Nothing
                        } else {
                            self.own_key(m, key)
                        }
                    },
                }
            },
        }
    }

    fn fed_search(&mut self, d: Direction)
        requires
            old(self).wf(),
        ensures
            final(self)@ == old(self)@.fed_search(d),
            final(self).wf(),
    {
        proof {
            reveal(EdV::fed_search);
        }
        let (pat, cancelled) = drain_pattern(&mut self.feed);
        if !cancelled {
            self.search_submit(&pat, d);
        }
    }

    /// Takes the next key of the feed; `None` when there is none.
    pub fn next_key(&mut self) -> (r: Option<Action>)
        requires
            old(self).wf(),
        ensures
            match r {
                Some(a) => old(self)@.feed.len() > 0 && typing::gave(
                    final(self)@,
                    a@,
                    old(self)@.fed(),
                ),
                None => old(self)@.feed.len() == 0 && final(self)@ == old(self)@,
            },
            final(self).wf(),
    {
        proof {
            reveal(EdV::fed);
        }
        match pop_feed(&mut self.feed) {
            None => None,
            Some(f) => Some(self.play(f)),
        }
    }

    /// Plays what was taken out of the feed.
    fn play(&mut self, f: Feed) -> (act: Action)
        requires
            old(self).wf(),
        ensures
            typing::gave(
                final(self)@,
                act@,
                (EdV { feed: old(self)@.feed.push(f@), ..old(self)@ }).fed(),
            ),
            final(self).wf(),
    {
        proof {
            reveal(EdV::fed);
            assert(self@.feed.push(f@).drop_last() =~= self@.feed);
        }
        match f {
            Feed::MacroKey(k) => self.mode_key(self.mode, &k),
            Feed::MapKey(k) => {
                let normal: bool = matches!(self.mode, Mode::Normal);
                if same(&k, "/") && normal {
                    self.fed_search(Direction::Forward);
                    Action::Nothing
                } else if same(&k, "?") && normal {
                    self.fed_search(Direction::Backward);
                    Action::Nothing
                } else {
                    self.mode_key(self.mode, &k)
                }
            },
            Feed::MacroEnd => {
                self.end_macro();
                Action::Nothing
            },
            Feed::MapEnd => {
                self.end_map();
                Action::Nothing
            },
            Feed::Rest(m, k) => self.own_key(m, &k),
            Feed::Typed(k, r) => {
                if self.recording == r {
                    self.record(&k);
                }
                Action::Nothing
            },
        }
    }

    fn end_macro(&mut self)
        requires
            old(self).wf(),
        ensures
            final(self)@ == (EdV {
                replay_depth: state::minus(old(self)@.replay_depth, 1),
                ..old(self)@
            }),
            final(self).wf(),
    {
        if self.replay_depth > 0 {
            self.replay_depth = self.replay_depth - 1;
        }
    }

    fn end_map(&mut self)
        requires
            old(self).wf(),
        ensures
            final(self)@ == (EdV {
                map_depth: state::minus(old(self)@.map_depth, 1),
                ..old(self)@
            }),
            final(self).wf(),
    {
        if self.map_depth > 0 {
            self.map_depth = self.map_depth - 1;
        }
    }

    fn record(&mut self, k: &str)
        requires
            old(self).wf(),
        ensures
            final(self)@ == (EdV {
                recorded: old(self)@.recorded + keys::encoded(k@),
                ..old(self)@
            }),
            final(self).wf(),
    {
        self.recording_buf = cat2(&self.recording_buf, &key_to_macro_text(k));
    }

    /// Takes a typed key.
    pub fn handle_key(&mut self, key: &str) -> (act: Action)
        requires
            old(self).wf(),
        ensures
            typing::gave(final(self)@, act@, old(self)@.typed_key(key@)),
            final(self).wf(),
    {
        proof {
            reveal(EdV::typed_key);
        }
        if self.recording.is_some() {
            let r: Option<char> = self.recording;
            push_feed(&mut self.feed, Feed::Typed(key.to_owned(), r));
        }
        self.mode_key(self.mode, key)
    }

    /// Asks whether a command to quit is heeded; the keys of a map that are
    /// left are dropped.
    pub fn quitting(&mut self) -> (r: bool)
        requires
            old(self).wf(),
        ensures
            r == old(self)@.may_quit(),
            final(self)@ == old(self)@.quitting(),
            final(self).wf(),
    {
        let r: bool = self.replay_depth == 0 && !feed_holds_rest(&self.feed);
        drop_map_keys(&mut self.feed);
        r
    }
}

fn feed_map(feed: &mut Vec<Feed>, ks: &Vec<String>)
    ensures
        state::feed_view(final(feed)@) == state::feed_view(old(feed)@) + map_feed(
            fold::views(ks@),
            0,
        ),
{
    let ghost base = state::feed_view(feed@);
    let ghost kv = fold::views(ks@);
    let mut i: usize = ks.len();
    assert(base + map_feed(kv, i as int) =~= base);
    while i > 0
        invariant
            i <= ks.len(),
            kv == fold::views(ks@),
            state::feed_view(feed@) == base + map_feed(kv, i as int),
        decreases i,
    {
        i -= 1;
        assert(kv[i as int] == ks@[i as int]@);
        push_feed(feed, Feed::MapKey(ks[i].clone()));
        assert(base + map_feed(kv, i as int) =~= (base + map_feed(kv, i + 1)).push(
            FeedV::MapKey(kv[i as int]),
        ));
    }
}

fn pop_feed(feed: &mut Vec<Feed>) -> (r: Option<Feed>)
    ensures
        match r {
            Some(f) => state::feed_view(old(feed)@) == state::feed_view(final(feed)@).push(f@),
            None => old(feed)@.len() == 0 && final(feed)@ == old(feed)@,
        },
{
    let ghost before = feed@;
    let r: Option<Feed> = feed.pop();
    proof {
        if r is Some {
            assert(state::feed_view(before) =~= state::feed_view(feed@).push(r->0@));
        }
    }
    r
}

/// Takes a search pattern out of the feed.
fn drain_pattern(feed: &mut Vec<Feed>) -> (r: (String, bool))
    ensures
        (state::feed_view(final(feed)@), r.0@, r.1) == drained(
            state::feed_view(old(feed)@),
            Seq::empty(),
        ),
{
    let ghost f0 = state::feed_view(feed@);
    let mut pat: String = String::new();
    assert(pat@ =~= Seq::empty());
    loop
        invariant
            f0 == state::feed_view(old(feed)@),
            drained(f0, Seq::empty()) == drained(state::feed_view(feed@), pat@),
        decreases feed@.len(),
    {
        let n: usize = feed.len();
        if n == 0 {
            return (pat, false);
        }
        let ghost fv = state::feed_view(feed@);
        assert(fv.last() == feed@[n - 1]@);
        let k: String = match &feed[n - 1] {
            Feed::MapKey(k) => k.clone(),
            _ => {
                return (pat, false);
            },
        };
        let _f: Option<Feed> = pop_feed(feed);
        assert(state::feed_view(feed@) =~= fv.drop_last());
        if same(&k, "ENTER") {
            return (pat, false);
        }
        if same(&k, "ESC") {
            return (pat, true);
        }
        if same(&k, "BACKSPACE") || same(&k, "DEL") {
            let v: Vec<char> = chars_of(&pat);
            if v.len() > 0 {
                let t: String = piece(&v, 0, v.len() - 1);
                assert(t@ =~= pat@.drop_last());
                pat = t;
            }
        } else if chars_of(&k).len() == 1 {
            pat = cat2(&pat, &k);
        }
    }
}

fn drop_map_keys(feed: &mut Vec<Feed>)
    ensures
        state::feed_view(final(feed)@) == without_map(state::feed_view(old(feed)@)),
{
    let ghost f0 = state::feed_view(feed@);
    loop
        invariant
            f0 == state::feed_view(old(feed)@),
            without_map(f0) == without_map(state::feed_view(feed@)),
        decreases feed@.len(),
    {
        let n: usize = feed.len();
        if n == 0 {
            return;
        }
        let ghost fv = state::feed_view(feed@);
        assert(fv.last() == feed@[n - 1]@);
        match &feed[n - 1] {
            Feed::MapKey(_) => {},
            _ => {
                return;
            },
        }
        let _f: Option<Feed> = pop_feed(feed);
        assert(state::feed_view(feed@) =~= fv.drop_last());
    }
}

fn feed_holds_rest(feed: &Vec<Feed>) -> (r: bool)
    ensures
        r == holds_rest(state::feed_view(feed@), feed@.len() as int),
{
    let mut n: usize = feed.len();
    while n > 0
        invariant
            n <= feed.len(),
            holds_rest(state::feed_view(feed@), feed@.len() as int) == holds_rest(
                state::feed_view(feed@),
                n as int,
            ),
        decreases n,
    {
        assert(state::feed_view(feed@)[n - 1] == feed@[n - 1]@);
        match &feed[n - 1] {
            Feed::Rest(_, _) => {
                return true;
            },
            _ => {},
        }
        n -= 1;
    }
    false
}

// ── The order of the keys ───────────────────────────────────────────────

/// The keys of a map are fed in their order: the one on top is the first, and
/// under it wait the others, each above the next.
pub proof fn law_map_keys_in_order(ks: Seq<Seq<char>>, i: int, k: int)
    requires
        0 <= i <= k < ks.len(),
    ensures
        map_feed(ks, i).len() == ks.len() - i,
        map_feed(ks, i)[ks.len() - 1 - k] == FeedV::MapKey(ks[k]),
    decreases ks.len() - i,
{
    if i + 1 < ks.len() {
        if i < k {
            law_map_keys_in_order(ks, i + 1, k);
        } else {
            law_map_keys_in_order(ks, i + 1, i + 1);
        }
    } else {
        assert(map_feed(ks, i + 1) =~= Seq::empty());
    }
}

/// The keys of a macro are fed in their order, those that a macro does not play
/// left out: what one list of keys feeds is on top of what the list after it
/// feeds.
pub proof fn law_macro_keys_in_order(a: Seq<Seq<char>>, b: Seq<Seq<char>>)
    ensures
        repeat::macro_feed(a + b, 0) == repeat::macro_feed(b, 0) + repeat::macro_feed(a, 0),
        a.len() == 1 && !repeat::unplayed(a[0]) ==> repeat::macro_feed(a, 0) == seq![
            FeedV::MacroKey(a[0]),
        ],
    decreases a.len(),
{
    if a.len() == 0 {
        assert(a + b =~= b);
        assert(repeat::macro_feed(b, 0) + repeat::macro_feed(a, 0) =~= repeat::macro_feed(b, 0));
    } else {
        let c = a.skip(1);
        law_macro_keys_in_order(c, b);
        lemma_macro_shift(a + b, 1, 1);
        lemma_macro_shift(a, 1, 1);
        assert((a + b).skip(1) =~= c + b);
        assert((a + b)[0] == a[0]);
        let x = repeat::macro_feed(b, 0);
        let y = repeat::macro_feed(c, 0);
        assert((x + y).push(FeedV::MacroKey(a[0])) =~= x + y.push(FeedV::MacroKey(a[0])));
        if a.len() == 1 {
            assert(y =~= Seq::empty());
            assert(Seq::<FeedV>::empty().push(FeedV::MacroKey(a[0])) =~= seq![
                FeedV::MacroKey(a[0]),
            ]);
        }
    }
}

proof fn lemma_macro_shift(ks: Seq<Seq<char>>, n: int, i: int)
    requires
        0 <= n <= i <= ks.len(),
    ensures
        repeat::macro_feed(ks, i) == repeat::macro_feed(ks.skip(n), i - n),
    decreases ks.len() - i,
{
    if i < ks.len() {
        assert(ks.skip(n)[i - n] == ks[i]);
        lemma_macro_shift(ks, n, i + 1);
    }
}

/// The map that a key runs is the first one for its mode and for just that
/// key; none runs when there is no such map.
pub proof fn law_map_found(maps: Seq<KeyMapV>, mode: Seq<char>, ks: Seq<Seq<char>>, i: int)
    requires
        0 <= i <= maps.len(),
    ensures
        match map_for(maps, mode, ks, i) {
            Some(r) => exists|k: int|
                {
                    &&& i <= k < maps.len()
                    &&& (#[trigger] maps[k]).mode == mode
                    &&& maps[k].lhs == ks
                    &&& maps[k].rhs == r
                    &&& forall|j: int|
                        i <= j < k ==> !((#[trigger] maps[j]).mode == mode && maps[j].lhs == ks)
                },
            None => forall|j: int|
                i <= j < maps.len() ==> !((#[trigger] maps[j]).mode == mode && maps[j].lhs == ks),
        },
    decreases maps.len() - i,
{
    if i < maps.len() && !(maps[i].mode == mode && maps[i].lhs == ks) {
        law_map_found(maps, mode, ks, i + 1);
        if map_for(maps, mode, ks, i + 1) is Some {
            let r = map_for(maps, mode, ks, i + 1)->0;
            let k = choose|k: int|
                {
                    &&& i + 1 <= k < maps.len()
                    &&& (#[trigger] maps[k]).mode == mode
                    &&& maps[k].lhs == ks
                    &&& maps[k].rhs == r
                    &&& forall|j: int|
                        i + 1 <= j < k ==> !((#[trigger] maps[j]).mode == mode && maps[j].lhs
                            == ks)
                };
            assert(maps[k].mode == mode);
            assert forall|j: int| i <= j < k implies !((#[trigger] maps[j]).mode == mode
                && maps[j].lhs == ks) by {
            }
        }
    } else if i < maps.len() {
        assert(maps[i].mode == mode);
    }
}

} // verus!
