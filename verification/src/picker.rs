//! Selection and tag state, and the per-keystroke state machine the
//! control loop runs: each key maps the current state to a new state and
//! an outcome (keep going, redraw, emit a result, or abort).
use crate::cache::{
    get_scores, lines_wf, ranked_data, score_all, ScoreCache,
};
use crate::line::Line;
use crate::rank::scores_data;
use crate::score::{lowered, score_ok, Score};
use crate::unicode::{is_space_char, push_char, whitespace};
use vstd::prelude::*;
use vstd::string::StringExecFns;

verus! {

/// A key event, abstracted from any device encoding.
#[derive(Debug, Clone, Copy, PartialEq, Eq, Structural)]
pub enum Key {
    Enter,
    AltEnter,
    Tab,
    CtrlN,
    Down,
    CtrlP,
    Up,
    CtrlW,
    CtrlU,
    Backspace,
    CtrlC,
    Esc,
    Char(char),
    Other,
}

/// What the loop should do after a key: nothing, redraw the display, emit
/// the given text and finish, or abort.
#[derive(Debug)]
pub enum Outcome {
    Continue,
    Redraw,
    Emit(String),
    Abort,
}

/// The query with trailing whitespace stripped.
pub open spec fn strip_trailing_spaces(q: Seq<char>) -> Seq<char>
    decreases q.len(),
{
    if q.len() > 0 && is_space_char(q.last()) {
        strip_trailing_spaces(q.drop_last())
    } else {
        q
    }
}

/// The query with its trailing run of non-whitespace stripped.
pub open spec fn strip_trailing_word(q: Seq<char>) -> Seq<char>
    decreases q.len(),
{
    if q.len() > 0 && !is_space_char(q.last()) {
        strip_trailing_word(q.drop_last())
    } else {
        q
    }
}

/// What deleting the previous word leaves: trailing whitespace goes, then
/// the word before it.
pub open spec fn delete_word_spec(q: Seq<char>) -> Seq<char> {
    strip_trailing_word(strip_trailing_spaces(q))
}

/// A tag list with the first occurrence of `x` removed, or unchanged if
/// `x` is absent.
pub open spec fn remove_first(s: Seq<usize>, x: usize) -> Seq<usize>
    decreases s.len(),
{
    if s.len() == 0 {
        s
    } else if s[0] == x {
        s.drop_first()
    } else {
        seq![s[0]] + remove_first(s.drop_first(), x)
    }
}

/// Toggling a record identity in the tag list: remove its first
/// occurrence if present, append it otherwise.
pub open spec fn toggle_tag_spec(s: Seq<usize>, x: usize) -> Seq<usize> {
    if s.contains(x) {
        remove_first(s, x)
    } else {
        s.push(x)
    }
}

/// The originally-typed text of the tagged records, newline-joined, in the
/// order each was tagged.
pub open spec fn joined_tags(lines: Seq<Line>, tags: Seq<usize>) -> Seq<char>
    decreases tags.len(),
{
    if tags.len() == 0 {
        Seq::empty()
    } else if tags.len() == 1 {
        lines[tags[0] as int].buf@
    } else {
        joined_tags(lines, tags.drop_last()) + seq!['\n'] + lines[tags.last() as int].buf@
    }
}

/// Removes the previous word from the query: trailing whitespace, then the
/// non-whitespace run before it.
pub fn delete_word(query: &mut Vec<char>)
    ensures
        final(query)@ == delete_word_spec(old(query)@),
{
    let mut saw_nonspace = false;
    loop
        invariant_except_break
            !saw_nonspace ==> delete_word_spec(old(query)@) == delete_word_spec(query@),
            saw_nonspace ==> delete_word_spec(old(query)@) == strip_trailing_word(query@),
        ensures
            query@ == delete_word_spec(old(query)@),
        decreases query@.len(),
    {
        let ghost pre = query@;
        match query.pop() {
            None => {
                proof {
                    assert(strip_trailing_word(pre) == pre);
                    assert(strip_trailing_spaces(pre) == pre);
                }
                break ;
            },
            Some(c) => {
                proof {
                    assert(pre.drop_last() =~= query@);
                    assert(pre.last() == c);
                }
                if whitespace(c) {
                    if saw_nonspace {
                        query.push(c);
                        proof {
                            assert(query@ =~= pre);
                            assert(strip_trailing_word(pre) == pre);
                        }
                        break ;
                    }
                    proof {
                        assert(strip_trailing_spaces(pre) == strip_trailing_spaces(
                            pre.drop_last(),
                        ));
                    }
                } else {
                    if !saw_nonspace {
                        saw_nonspace = true;
                        proof {
                            assert(strip_trailing_spaces(pre) == pre);
                            assert(strip_trailing_word(pre) == strip_trailing_word(
                                pre.drop_last(),
                            ));
                        }
                    } else {
                        proof {
                            assert(strip_trailing_word(pre) == strip_trailing_word(
                                pre.drop_last(),
                            ));
                        }
                    }
                }
            },
        }
    }
}

/// The interactive state one selector run threads through its loop: the
/// records, the query cache, the current ranked results, the selected row,
/// and the tagged record identities.
pub struct Picker<'a> {
    pub cache: ScoreCache<'a>,
    pub scores: Vec<Score<'a>>,
    pub query: Vec<char>,
    pub selected: usize,
    pub tagged: Vec<usize>,
    pub multiple: bool,
    pub height: usize,
}

impl<'a> Picker<'a> {
    /// How many result rows the viewport shows.
    pub open spec fn spec_num_visible(self) -> int {
        if self.scores@.len() < self.height - 1 {
            self.scores@.len() as int
        } else {
            self.height - 1
        }
    }

    /// The state is consistent: the cache is sound and primed, the current
    /// results are exactly the ranked results of the current query, the
    /// selected row lies among the visible rows, and every tag is a real
    /// record identity.
    pub open spec fn wf(self) -> bool {
        &&& self.cache.wf()
        &&& self.cache.has_empty()
        &&& self.height >= 1
        &&& scores_data(self.scores@) == ranked_data(
            self.cache.lines@,
            lowered(self.query@),
        )
        &&& forall|i: int| 0 <= i < self.scores@.len() ==> score_ok(#[trigger] self.scores@[i])
        &&& self.spec_num_visible() > 0 ==> self.selected < self.spec_num_visible()
        &&& self.spec_num_visible() == 0 ==> self.selected == 0
        &&& forall|i: int|
            0 <= i < self.tagged@.len() ==> (#[trigger] self.tagged@[i])
                < self.cache.lines@.len()
    }

    /// Starts a run: primes the cache with the empty query where needed,
    /// scores the record set against the initial query, and selects the
    /// top row.
    pub fn new(
        lines: &'a Vec<Line>,
        initial_query: Vec<char>,
        height: usize,
        multiple: bool,
    ) -> (r: Picker<'a>)
        requires
            lines_wf(lines@),
            height >= 1,
        ensures
            r.wf(),
            r.cache.lines == lines,
            r.query@ == initial_query@,
            r.multiple == multiple,
            r.height == height,
            r.selected == 0,
            r.tagged@.len() == 0,
            scores_data(r.scores@) == ranked_data(lines@, lowered(initial_query@)),
    {
        let mut cache = ScoreCache::new(lines);
        if initial_query.len() > 0 {
            let empty_query: Vec<char> = Vec::new();
            let empty_scores = score_all(lines, empty_query.as_slice());
            cache.insert(empty_query, empty_scores);
        }
        let scores = score_all(lines, initial_query.as_slice());
        let key = clone_chars(&initial_query);
        let scores_copy = copy_scores(&scores);
        proof {
            if initial_query@.len() > 0 {
                assert(!cache.contains_key(initial_query@));
            }
        }
        cache.insert(key, scores_copy);
        proof {
            if initial_query@.len() == 0 {
                assert(initial_query@ =~= Seq::<char>::empty());
            }
            assert(cache.has_empty());
        }
        Picker { cache, scores, query: initial_query, selected: 0, tagged: Vec::new(), multiple, height }
    }

    /// How many result rows fit the viewport.
    pub fn num_visible(&self) -> (r: usize)
        requires
            self.height >= 1,
        ensures
            r as int == self.spec_num_visible(),
    {
        let limit = self.height - 1;
        if self.scores.len() < limit {
            self.scores.len()
        } else {
            limit
        }
    }
}

/// The two states hold the same query, results, selection and tags.
pub open spec fn same_state<'a>(a: Picker<'a>, b: Picker<'a>) -> bool {
    &&& a.query@ == b.query@
    &&& a.scores@ == b.scores@
    &&& a.selected == b.selected
    &&& a.tagged@ == b.tagged@
}

/// Where the selection lands after the result list changes: clamped into
/// the visible rows, or cleared when nothing is visible.
pub open spec fn clamped_selection<'a>(pre: Picker<'a>, post: Picker<'a>) -> bool {
    if post.spec_num_visible() == 0 {
        post.selected == 0
    } else if pre.selected < post.spec_num_visible() {
        post.selected == pre.selected
    } else {
        post.selected == post.spec_num_visible() - 1
    }
}

/// The query changed to `newq` and was resolved: results follow the new
/// query, the selection is clamped, and the tags are untouched.
pub open spec fn resolved_to<'a>(pre: Picker<'a>, post: Picker<'a>, newq: Seq<char>) -> bool {
    &&& post.query@ == newq
    &&& clamped_selection(pre, post)
    &&& post.tagged@ == pre.tagged@
}

/// The single-selection output: the selected record's original text, or
/// nothing when no result is visible.
pub open spec fn single_output<'a>(p: Picker<'a>) -> Seq<char> {
    if p.scores@.len() == 0 {
        Seq::empty()
    } else {
        p.scores@[p.selected as int].line.buf@
    }
}

/// The multi-selection output: the tagged records' original text in tag
/// order, or the single output when nothing is tagged or multi-selection
/// is off.
pub open spec fn multi_output<'a>(p: Picker<'a>) -> Seq<char> {
    if p.scores@.len() == 0 {
        Seq::empty()
    } else if p.tagged@.len() == 0 || !p.multiple {
        single_output(p)
    } else {
        joined_tags(p.cache.lines@, p.tagged@)
    }
}

/// What the tag key does in multi-selection mode: toggles the selected
/// record's identity, or nothing when no row is selected.
pub open spec fn tab_toggle_step<'a>(pre: Picker<'a>, post: Picker<'a>, r: Outcome) -> bool {
    &&& post.query@ == pre.query@
    &&& post.scores@ == pre.scores@
    &&& post.selected == pre.selected
    &&& if pre.scores@.len() == 0 {
        post.tagged@ == pre.tagged@ && r is Continue
    } else {
        post.tagged@ == toggle_tag_spec(
            pre.tagged@,
            pre.scores@[pre.selected as int].line.index,
        ) && r is Redraw
    }
}

/// What moving down does: one row further, wrapping from the last visible
/// row to the first; a redraw whenever more than one row is visible.
pub open spec fn nav_down_step<'a>(pre: Picker<'a>, post: Picker<'a>, r: Outcome) -> bool {
    &&& post.query@ == pre.query@
    &&& post.scores@ == pre.scores@
    &&& post.tagged@ == pre.tagged@
    &&& if pre.spec_num_visible() > 0 {
        post.selected as int == if pre.selected + 1 < pre.spec_num_visible() {
            pre.selected + 1
        } else {
            0
        }
    } else {
        post.selected == pre.selected
    }
    &&& if pre.spec_num_visible() > 1 {
        r is Redraw
    } else {
        r is Continue
    }
}

/// What moving up does: one row back, wrapping from the first visible row
/// to the last; a redraw whenever a row is visible.
pub open spec fn nav_up_step<'a>(pre: Picker<'a>, post: Picker<'a>, r: Outcome) -> bool {
    &&& post.query@ == pre.query@
    &&& post.scores@ == pre.scores@
    &&& post.tagged@ == pre.tagged@
    &&& if pre.spec_num_visible() > 0 {
        post.selected as int == if pre.selected > 0 {
            pre.selected - 1
        } else {
            pre.spec_num_visible() - 1
        }
    } else {
        post.selected == pre.selected
    }
    &&& if pre.spec_num_visible() > 0 {
        r is Redraw
    } else {
        r is Continue
    }
}

impl<'a> Picker<'a> {
    /// Moves the selection down one visible row, wrapping from the last
    /// visible row to the first. Says whether a redraw is due.
    pub fn move_down(&mut self) -> (r: bool)
        requires
            old(self).wf(),
        ensures
            final(self).wf(),
            final(self).cache == old(self).cache,
            final(self).query@ == old(self).query@,
            final(self).scores@ == old(self).scores@,
            final(self).tagged@ == old(self).tagged@,
            final(self).multiple == old(self).multiple,
            final(self).height == old(self).height,
            old(self).spec_num_visible() == 0 ==> final(self).selected == old(self).selected,
            old(self).spec_num_visible() > 0 ==> final(self).selected as int == (
            if old(self).selected + 1 < old(self).spec_num_visible() {
                old(self).selected + 1
            } else {
                0
            }),
            r == (old(self).spec_num_visible() > 1),
    {
        let nv = self.num_visible();
        if nv == 0 {
            return false;
        }
        if self.selected < nv - 1 {
            self.selected = self.selected + 1;
            true
        } else if self.selected > 0 {
            self.selected = 0;
            true
        } else {
            false
        }
    }

    /// Moves the selection up one visible row, wrapping from the first
    /// visible row to the last. Says whether a redraw is due.
    pub fn move_up(&mut self) -> (r: bool)
        requires
            old(self).wf(),
        ensures
            final(self).wf(),
            final(self).cache == old(self).cache,
            final(self).query@ == old(self).query@,
            final(self).scores@ == old(self).scores@,
            final(self).tagged@ == old(self).tagged@,
            final(self).multiple == old(self).multiple,
            final(self).height == old(self).height,
            old(self).spec_num_visible() == 0 ==> final(self).selected == old(self).selected,
            old(self).spec_num_visible() > 0 ==> final(self).selected as int == (
            if old(self).selected > 0 {
                old(self).selected - 1
            } else {
                old(self).spec_num_visible() - 1
            }),
            r == (old(self).spec_num_visible() > 0),
    {
        let nv = self.num_visible();
        if self.selected > 0 {
            self.selected = self.selected - 1;
            true
        } else if nv > 0 {
            self.selected = nv - 1;
            true
        } else {
            false
        }
    }

    /// Toggles the selected record's identity in the tag list. Does
    /// nothing when no row is selected. Says whether a redraw is due.
    pub fn toggle_tag(&mut self) -> (r: bool)
        requires
            old(self).wf(),
        ensures
            final(self).wf(),
            final(self).cache == old(self).cache,
            final(self).query@ == old(self).query@,
            final(self).scores@ == old(self).scores@,
            final(self).selected == old(self).selected,
            final(self).multiple == old(self).multiple,
            final(self).height == old(self).height,
            old(self).scores@.len() == 0 ==> final(self).tagged@ == old(self).tagged@ && r
                == false,
            old(self).scores@.len() > 0 ==> final(self).tagged@ == toggle_tag_spec(
                old(self).tagged@,
                old(self).scores@[old(self).selected as int].line.index,
            ) && r == true,
    {
        if self.scores.len() == 0 {
            return false;
        }
        proof {
            crate::cache::lemma_ranked_bounds(self.cache.lines@, lowered(self.query@));
            assert(scores_data(self.scores@)[self.selected as int] == crate::score::score_data(
                self.scores@[self.selected as int],
            ));
        }
        let idx = self.scores[self.selected].line.index;
        let mut pos: usize = 0;
        let n = self.tagged.len();
        let mut found = false;
        while pos < n
            invariant_except_break
                n == self.tagged@.len(),
                0 <= pos <= n,
                !found,
                forall|j: int| 0 <= j < pos ==> #[trigger] self.tagged@[j] != idx,
            ensures
                n == self.tagged@.len(),
                0 <= pos <= n,
                found ==> pos < n && self.tagged@[pos as int] == idx && forall|j: int|
                    0 <= j < pos ==> #[trigger] self.tagged@[j] != idx,
                !found ==> forall|j: int| 0 <= j < n ==> #[trigger] self.tagged@[j] != idx,
            decreases n - pos,
        {
            if self.tagged[pos] == idx {
                found = true;
                break ;
            }
            pos += 1;
        }
        if found {
            proof {
                assert(self.tagged@.contains(idx));
                lemma_remove_first_at(self.tagged@, idx, pos as int);
            }
            self.tagged.remove(pos);
        } else {
            proof {
                if self.tagged@.contains(idx) {
                    let w = choose|w: int|
                        0 <= w < self.tagged@.len() && self.tagged@[w] == idx;
                    assert(false);
                }
            }
            self.tagged.push(idx);
        }
        true
    }

    /// Resolves the current query through the cache and clamps the
    /// selection to the new visible rows.
    fn resolve(&mut self)
        requires
            old(self).cache.wf(),
            old(self).cache.has_empty(),
            old(self).height >= 1,
            forall|i: int|
                0 <= i < old(self).tagged@.len() ==> (#[trigger] old(self).tagged@[i]) < old(
                    self,
                ).cache.lines@.len(),
        ensures
            final(self).wf(),
            final(self).cache.lines == old(self).cache.lines,
            final(self).query@ == old(self).query@,
            final(self).tagged@ == old(self).tagged@,
            final(self).multiple == old(self).multiple,
            final(self).height == old(self).height,
            clamped_selection(*old(self), *final(self)),
    {
        let new_scores = get_scores(&mut self.cache, self.query.as_slice());
        self.scores = new_scores;
        let nv = self.num_visible();
        if nv == 0 {
            self.selected = 0;
        } else if self.selected >= nv {
            self.selected = nv - 1;
        }
    }

    /// One step of the control loop: maps a key event and the current
    /// state to the next state and what the loop should do. Navigation
    /// wraps around the visible rows; query edits re-resolve through the
    /// cache and clamp the selection; confirm keys emit the output text;
    /// the abort keys abort.
    pub fn handle_key(&mut self, key: Key) -> (r: Outcome)
        requires
            old(self).wf(),
        ensures
            final(self).wf(),
            final(self).cache.lines == old(self).cache.lines,
            final(self).multiple == old(self).multiple,
            final(self).height == old(self).height,
            match key {
                Key::CtrlC | Key::Esc => same_state(*old(self), *final(self)) && r is Abort,
                Key::Enter => same_state(*old(self), *final(self)) && (match r {
                    Outcome::Emit(s) => s@ == single_output(*old(self)),
                    _ => false,
                }),
                Key::AltEnter => same_state(*old(self), *final(self)) && (match r {
                    Outcome::Emit(s) => s@ == multi_output(*old(self)),
                    _ => false,
                }),
                Key::Tab => if old(self).multiple {
                    tab_toggle_step(*old(self), *final(self), r)
                } else {
                    resolved_to(*old(self), *final(self), old(self).query@.push('\t'))
                        && r is Redraw
                },
                Key::CtrlN | Key::Down => nav_down_step(*old(self), *final(self), r),
                Key::CtrlP | Key::Up => nav_up_step(*old(self), *final(self), r),
                Key::CtrlW => if old(self).query@.len() == 0 {
                    same_state(*old(self), *final(self)) && r is Continue
                } else {
                    resolved_to(*old(self), *final(self), delete_word_spec(old(self).query@))
                        && r is Redraw
                },
                Key::CtrlU => if old(self).query@.len() == 0 {
                    same_state(*old(self), *final(self)) && r is Continue
                } else {
                    resolved_to(*old(self), *final(self), Seq::<char>::empty()) && r is Redraw
                },
                Key::Backspace => if old(self).query@.len() == 0 {
                    same_state(*old(self), *final(self)) && r is Continue
                } else {
                    resolved_to(*old(self), *final(self), old(self).query@.drop_last())
                        && r is Redraw
                },
                Key::Char(c) => resolved_to(*old(self), *final(self), old(self).query@.push(c))
                    && r is Redraw,
                Key::Other => same_state(*old(self), *final(self)) && r is Continue,
            },
    {
        match key {
            Key::CtrlC | Key::Esc => Outcome::Abort,
            Key::Enter => {
                if self.scores.len() == 0 {
                    Outcome::Emit(String::new())
                } else {
                    Outcome::Emit(self.scores[self.selected].line.buf.clone())
                }
            },
            Key::AltEnter => {
                if self.scores.len() == 0 {
                    Outcome::Emit(String::new())
                } else if self.tagged.len() == 0 || !self.multiple {
                    Outcome::Emit(self.scores[self.selected].line.buf.clone())
                } else {
                    Outcome::Emit(self.join_tagged())
                }
            },
            Key::Tab => {
                if self.multiple {
                    if self.toggle_tag() {
                        Outcome::Redraw
                    } else {
                        Outcome::Continue
                    }
                } else {
                    self.query.push('\t');
                    self.resolve();
                    Outcome::Redraw
                }
            },
            Key::CtrlN | Key::Down => {
                if self.move_down() {
                    Outcome::Redraw
                } else {
                    Outcome::Continue
                }
            },
            Key::CtrlP | Key::Up => {
                if self.move_up() {
                    Outcome::Redraw
                } else {
                    Outcome::Continue
                }
            },
            Key::CtrlW => {
                if self.query.len() == 0 {
                    Outcome::Continue
                } else {
                    delete_word(&mut self.query);
                    self.resolve();
                    Outcome::Redraw
                }
            },
            Key::CtrlU => {
                if self.query.len() == 0 {
                    Outcome::Continue
                } else {
                    self.query.clear();
                    proof {
                        assert(self.query@ =~= Seq::<char>::empty());
                    }
                    self.resolve();
                    Outcome::Redraw
                }
            },
            Key::Backspace => {
                if self.query.len() == 0 {
                    Outcome::Continue
                } else {
                    self.query.pop();
                    self.resolve();
                    Outcome::Redraw
                }
            },
            Key::Char(c) => {
                self.query.push(c);
                self.resolve();
                Outcome::Redraw
            },
            Key::Other => Outcome::Continue,
        }
    }

    /// The tagged records' original text, newline-joined, in tag order.
    fn join_tagged(&self) -> (r: String)
        requires
            self.wf(),
        ensures
            r@ == joined_tags(self.cache.lines@, self.tagged@),
    {
        let mut out = String::new();
        let mut i: usize = 0;
        let n = self.tagged.len();
        while i < n
            invariant
                self.wf(),
                n == self.tagged@.len(),
                0 <= i <= n,
                out@ == joined_tags(self.cache.lines@, self.tagged@.take(i as int)),
            decreases n - i,
        {
            if i > 0 {
                push_char(&mut out, '\n');
            }
            let t = self.tagged[i];
            out.append(self.cache.lines[t].buf.as_str());
            proof {
                let tk = self.tagged@.take(i as int + 1);
                assert(tk.drop_last() =~= self.tagged@.take(i as int));
                assert(tk.last() == self.tagged@[i as int]);
            }
            i += 1;
        }
        proof {
            assert(self.tagged@.take(n as int) =~= self.tagged@);
        }
        out
    }
}

/// Removing the first occurrence, when it stands at `p` and nothing
/// earlier equals it, is removing position `p`.
proof fn lemma_remove_first_at(s: Seq<usize>, x: usize, p: int)
    requires
        0 <= p < s.len(),
        s[p] == x,
        forall|j: int| 0 <= j < p ==> #[trigger] s[j] != x,
    ensures
        remove_first(s, x) == s.remove(p),
    decreases p,
{
    if p == 0 {
        assert(remove_first(s, x) == s.drop_first());
        assert(s.drop_first() =~= s.remove(0));
    } else {
        assert(s[0] != x);
        let t = s.drop_first();
        assert(t[p - 1] == x);
        assert forall|j: int| 0 <= j < p - 1 implies #[trigger] t[j] != x by {
            assert(t[j] == s[j + 1]);
        }
        lemma_remove_first_at(t, x, p - 1);
        assert(seq![s[0]] + t.remove(p - 1) =~= s.remove(p));
    }
}

/// An owned copy of a tag key.
fn clone_chars(v: &Vec<char>) -> (r: Vec<char>)
    ensures
        r@ == v@,
{
    let mut out: Vec<char> = Vec::new();
    let mut i: usize = 0;
    let n = v.len();
    while i < n
        invariant
            n == v@.len(),
            0 <= i <= n,
            out@ == v@.take(i as int),
        decreases n - i,
    {
        out.push(v[i]);
        proof {
            assert(v@.take(i as int).push(v@[i as int]) =~= v@.take(i as int + 1));
        }
        i += 1;
    }
    proof {
        assert(v@.take(n as int) =~= v@);
    }
    out
}

/// An owned copy of a result list.
fn copy_scores<'a>(v: &Vec<Score<'a>>) -> (r: Vec<Score<'a>>)
    ensures
        r@ == v@,
{
    let mut out: Vec<Score<'a>> = Vec::new();
    let mut i: usize = 0;
    let n = v.len();
    while i < n
        invariant
            n == v@.len(),
            0 <= i <= n,
            out@ == v@.take(i as int),
        decreases n - i,
    {
        out.push(v[i]);
        proof {
            assert(v@.take(i as int).push(v@[i as int]) =~= v@.take(i as int + 1));
        }
        i += 1;
    }
    proof {
        assert(v@.take(n as int) =~= v@);
    }
    out
}

} // verus!
