//! The renderer: turns ranked results, the query, the selection and the
//! tags into a width- and height-bounded display buffer with highlighted
//! match spans, expanded tabs, and trailing clear directives, so a new
//! frame fully overwrites the previous one.
use crate::fmtnum::{dec_chars, dec_len, push_dec};
use crate::rank::ScoreData;
use crate::score::{score_data, Score};
use crate::unicode::{
    char_width, char_width_of, chars_to_string, chars_width, push_char, str_chars, str_width_of,
};
use vstd::prelude::*;
use vstd::string::StringExecFns;

verus! {

/// One role set of the theme: pre-rendered style tokens for normal,
/// selected, matched, matched-on-selected and tagged text.
pub struct Colors {
    pub normal: String,
    pub selected: String,
    pub matched: String,
    pub matched_selected: String,
    pub tag: String,
}

/// What one render pass needs to know about the viewport and theme.
pub struct RendererConfig<'a> {
    pub width: usize,
    pub height: usize,
    pub fg: &'a Colors,
    pub bg: &'a Colors,
    pub match_count_length: usize,
}

/// A render pass over one ranked result list.
pub struct Renderer<'a> {
    pub scores: &'a Vec<Score<'a>>,
    pub query: String,
    pub selected: usize,
    pub height: usize,
    pub width: usize,
    pub fg: &'a Colors,
    pub bg: &'a Colors,
    pub match_count_length: usize,
    pub tagged: &'a [usize],
}

/// A run of spaces.
pub open spec fn spaces(n: int) -> Seq<char>
    decreases n,
{
    if n <= 0 {
        Seq::empty()
    } else {
        spaces(n - 1).push(' ')
    }
}

/// The status row's content: the match count right-justified to the width
/// of the unfiltered record count, a literal separator, and the query.
pub open spec fn status_chars(count_len: int, n: nat, query: Seq<char>) -> Seq<char> {
    spaces(count_len - dec_chars(n).len()) + dec_chars(n) + " > "@ + query
}

/// Truncation by display width: each character is kept only while the kept
/// prefix still measures under the viewport width.
pub open spec fn trunc_by_width(line: Seq<char>, maxw: int, i: int, kept: Seq<char>) -> Seq<char>
    decreases line.len() - i,
{
    if i < 0 || i >= line.len() {
        kept
    } else if str_width_of(kept) < maxw {
        trunc_by_width(line, maxw, i + 1, kept.push(line[i]))
    } else {
        trunc_by_width(line, maxw, i + 1, kept)
    }
}

/// The rendered status row: its content truncated to the viewport width,
/// then a clear-to-end-of-line directive.
pub open spec fn search_line_spec(count_len: int, n: nat, query: Seq<char>, width: int) -> Seq<
    char,
> {
    trunc_by_width(status_chars(count_len, n, query), width, 0, Seq::empty()) + "\x1B[K"@
}

/// The column width a character occupies, with control characters counted
/// as zero.
pub open spec fn char_width_or0(c: char) -> int {
    match char_width_of(c) {
        Some(w) => w as int,
        None => 0,
    }
}

/// How many spaces a tab expands to from a given column: up to the next
/// multiple-of-eight column, stopping early at the viewport edge, and at
/// least one.
pub open spec fn tab_expand(visible: int, width: int) -> int
    decreases 8 - (visible % 8),
{
    if (visible + 1) % 8 == 0 || visible + 1 >= width {
        1
    } else {
        1 + tab_expand(visible + 1, width)
    }
}

/// A tab expands to at least one space and never past the next
/// multiple-of-eight column.
pub proof fn lemma_tab_expand_bounds(visible: int, width: int)
    ensures
        1 <= tab_expand(visible, width) <= 8 - (visible % 8),
    decreases 8 - (visible % 8),
{
    if !((visible + 1) % 8 == 0 || visible + 1 >= width) {
        lemma_tab_expand_bounds(visible + 1, width);
    }
}

/// The emitted content of one result row, walked character by character
/// from column `visible` with `out` emitted so far: the highlight token
/// `hi_on` goes in front of the span's first character and `hi_off` in
/// front of the character after the span; tabs expand to spaces; emission
/// stops at the viewport edge, never splitting a wide character.
pub open spec fn hl_body(
    chars: Seq<char>,
    first: int,
    last: int,
    hi_on: Seq<char>,
    hi_off: Seq<char>,
    width: int,
    i: int,
    visible: int,
    out: Seq<char>,
) -> Seq<char>
    decreases chars.len() - i,
{
    if i < 0 || i >= chars.len() {
        out
    } else {
        let out1 = if first != last && first == i {
            out + hi_on
        } else if first != last && last == i {
            out + hi_off
        } else {
            out
        };
        let c = chars[i];
        if c == '\t' {
            let k = tab_expand(visible, width);
            let out2 = out1 + spaces(k);
            if width <= visible + k {
                out2
            } else {
                hl_body(chars, first, last, hi_on, hi_off, width, i + 1, visible + k, out2)
            }
        } else if width > visible {
            let w = char_width_or0(c);
            if visible + w <= width {
                let out2 = out1.push(c);
                if width <= visible + w {
                    out2
                } else {
                    hl_body(chars, first, last, hi_on, hi_off, width, i + 1, visible + w, out2)
                }
            } else {
                out1
            }
        } else {
            out1
        }
    }
}

/// The highlight tokens in force for a row: the matched roles, or their
/// on-selected variants.
pub open spec fn hl_on(fg: Colors, bg: Colors, selected: bool) -> Seq<char> {
    if selected {
        fg.matched_selected@ + bg.matched_selected@
    } else {
        fg.matched@ + bg.matched@
    }
}

/// The token that ends a highlighted span: back to the selected or normal
/// role.
pub open spec fn hl_off(fg: Colors, bg: Colors, selected: bool) -> Seq<char> {
    if selected {
        fg.selected@ + bg.selected@
    } else {
        fg.normal@ + bg.normal@
    }
}

/// One fully rendered result row: the tag marker if the record is tagged,
/// the base roles, the emitted content with its highlighted span, and the
/// trailing reset and clear directives.
pub open spec fn highlight_spec(
    fg: Colors,
    bg: Colors,
    tagged: Seq<usize>,
    width: int,
    d: ScoreData,
    selected: bool,
) -> Seq<char> {
    let tag_part = if tagged.contains(d.3.index) {
        fg.tag@ + bg.tag@ + " + "@ + "\x1B[39m"@ + "\x1B[49m"@
    } else {
        Seq::empty()
    };
    let head = if selected {
        fg.normal@ + bg.normal@ + fg.selected@ + bg.selected@
    } else {
        fg.normal@ + bg.normal@
    };
    let body = hl_body(
        d.3.buf@,
        d.0,
        d.1,
        hl_on(fg, bg, selected),
        hl_off(fg, bg, selected),
        width,
        0,
        0,
        Seq::empty(),
    );
    tag_part + head + body + "\x1B[39m"@ + "\x1B[49m"@ + "\x1B[m"@ + "\x1B[K"@
}

/// The rows of one frame joined with carriage-return line-feeds.
pub open spec fn joined_rows(rows: Seq<Seq<char>>) -> Seq<char>
    decreases rows.len(),
{
    if rows.len() == 0 {
        Seq::empty()
    } else if rows.len() == 1 {
        rows[0]
    } else {
        joined_rows(rows.drop_last()) + "\r\n"@ + rows.last()
    }
}

/// Whether a tag list holds a record identity.
fn contains_usize(t: &[usize], x: usize) -> (r: bool)
    ensures
        r == t@.contains(x),
{
    let n = t.len();
    let mut i: usize = 0;
    while i < n
        invariant
            n == t@.len(),
            0 <= i <= n,
            forall|j: int| 0 <= j < i ==> #[trigger] t@[j] != x,
        decreases n - i,
    {
        if t[i] == x {
            return true;
        }
        i += 1;
    }
    false
}

impl<'a> Renderer<'a> {
    /// The viewport is usable: at least the status row fits, and the width
    /// leaves room for the widest character without overflowing a machine
    /// word.
    pub open spec fn wf(self) -> bool {
        &&& self.height >= 1
        &&& self.width < usize::MAX - 8
    }

    pub fn new(
        config: &'a RendererConfig<'a>,
        scores: &'a Vec<Score<'a>>,
        query: String,
        selected: usize,
        tagged: &'a [usize],
    ) -> (r: Renderer<'a>)
        requires
            config.height >= 1,
            config.width < usize::MAX - 8,
        ensures
            r.wf(),
            r.scores == scores,
            r.query == query,
            r.selected == selected,
            r.height == config.height,
            r.width == config.width,
            r.fg == config.fg,
            r.bg == config.bg,
            r.match_count_length == config.match_count_length,
            r.tagged == tagged,
    {
        Renderer {
            scores,
            query,
            selected,
            match_count_length: config.match_count_length,
            fg: config.fg,
            bg: config.bg,
            width: config.width,
            height: config.height,
            tagged,
        }
    }

    /// How many result rows the viewport shows.
    pub open spec fn spec_num_visible(self) -> int {
        if self.scores@.len() < self.height - 1 {
            self.scores@.len() as int
        } else {
            self.height - 1
        }
    }

    pub fn num_visible(&self) -> (r: usize)
        requires
            self.height >= 1,
        ensures
            r as int == self.spec_num_visible(),
    {
        let limit = self.height - 1;
        if self.scores.len() < limit {
            self.scores.len()
        } else {
            limit
        }
    }

    /// Renders the status row: the right-justified match count, the
    /// separator, and the query, truncated to the viewport width and
    /// ended with a clear-to-end-of-line directive.
    pub fn render_search_line(&self, num_scores: usize) -> (r: String)
        ensures
            r@ == search_line_spec(
                self.match_count_length as int,
                num_scores as nat,
                self.query@,
                self.width as int,
            ),
    {
        let mut line: Vec<char> = Vec::new();
        let digits = dec_len(num_scores);
        let pad: usize = if digits < self.match_count_length {
            self.match_count_length - digits
        } else {
            0
        };
        let mut p: usize = 0;
        while p < pad
            invariant
                0 <= p <= pad,
                line@ == spaces(p as int),
            decreases pad - p,
        {
            line.push(' ');
            p += 1;
        }
        proof {
            assert(line@ == spaces(
                self.match_count_length as int - dec_chars(num_scores as nat).len(),
            )) by {
                crate::fmtnum::lemma_dec_chars_len_le(num_scores as nat);
            }
        }
        push_dec(&mut line, num_scores);
        line.push(' ');
        line.push('>');
        line.push(' ');
        let qchars = str_chars(self.query.as_str());
        let mut qi: usize = 0;
        let ghost mid = line@;
        while qi < qchars.len()
            invariant
                0 <= qi <= qchars@.len(),
                line@ == mid + qchars@.take(qi as int),
            decreases qchars@.len() - qi,
        {
            line.push(qchars[qi]);
            proof {
                assert(mid + qchars@.take(qi as int + 1) =~= (mid + qchars@.take(
                    qi as int,
                )).push(qchars@[qi as int]));
            }
            qi += 1;
        }
        proof {
            assert(qchars@.take(qchars@.len() as int) =~= qchars@);
            reveal_strlit(" > ");
            assert(" > "@.len() == 3);
            assert(line@ =~= status_chars(
                self.match_count_length as int,
                num_scores as nat,
                self.query@,
            ));
        }
        let ghost full = line@;
        let mut kept: Vec<char> = Vec::new();
        let mut i: usize = 0;
        let n = line.len();
        while i < n
            invariant
                n == line@.len(),
                0 <= i <= n,
                line@ == full,
                trunc_by_width(full, self.width as int, i as int, kept@) == trunc_by_width(
                    full,
                    self.width as int,
                    0,
                    Seq::empty(),
                ),
            decreases n - i,
        {
            if chars_width(&kept) < self.width {
                kept.push(line[i]);
            }
            i += 1;
        }
        let mut out = chars_to_string(&kept);
        out.append("\x1B[K");
        out
    }

    /// Renders one result row: the tag marker when the record is tagged,
    /// the base roles, the record's original-case text with its match span
    /// recolored, tabs expanded to the next multiple-of-eight column,
    /// truncated to the viewport width, and trailing reset and clear
    /// directives.
    pub fn highlight_line(&self, score: &Score<'a>, selected: bool) -> (r: String)
        requires
            self.wf(),
        ensures
            r@ == highlight_spec(
                *self.fg,
                *self.bg,
                self.tagged@,
                self.width as int,
                score_data(*score),
                selected,
            ),
    {
        let ghost d = score_data(*score);
        let ghost on = hl_on(*self.fg, *self.bg, selected);
        let ghost off = hl_off(*self.fg, *self.bg, selected);
        let width = self.width;
        let mut rv = String::new();
        if contains_usize(self.tagged, score.line.index) {
            rv.append(self.fg.tag.as_str());
            rv.append(self.bg.tag.as_str());
            rv.append(" + ");
            rv.append("\x1B[39m");
            rv.append("\x1B[49m");
        }
        rv.append(self.fg.normal.as_str());
        rv.append(self.bg.normal.as_str());
        if selected {
            rv.append(self.fg.selected.as_str());
            rv.append(self.bg.selected.as_str());
        }
        let ghost prefix = rv@;
        proof {
            let tag_part = if self.tagged@.contains(d.3.index) {
                self.fg.tag@ + self.bg.tag@ + " + "@ + "\x1B[39m"@ + "\x1B[49m"@
            } else {
                Seq::<char>::empty()
            };
            let head = if selected {
                self.fg.normal@ + self.bg.normal@ + self.fg.selected@ + self.bg.selected@
            } else {
                self.fg.normal@ + self.bg.normal@
            };
            assert(prefix =~= tag_part + head);
        }
        let chars = str_chars(score.line.buf.as_str());
        let ghost body_full = hl_body(chars@, d.0, d.1, on, off, width as int, 0, 0, Seq::empty());
        let ghost mut body_acc: Seq<char> = Seq::empty();
        let mut visible: usize = 0;
        let mut i: usize = 0;
        let n = chars.len();
        while i < n
            invariant_except_break
                self.wf(),
                width == self.width,
                n == chars@.len(),
                0 <= i <= n,
                visible == 0 || visible < width,
                rv@ == prefix + body_acc,
                d == score_data(*score),
                chars@ == d.3.buf@,
                on == hl_on(*self.fg, *self.bg, selected),
                off == hl_off(*self.fg, *self.bg, selected),
                body_full == hl_body(chars@, d.0, d.1, on, off, width as int, 0, 0, Seq::empty()),
                hl_body(chars@, d.0, d.1, on, off, width as int, i as int, visible as int, body_acc)
                    == body_full,
            ensures
                rv@ == prefix + body_full,
            decreases n - i,
        {
            let ghost pre_acc = body_acc;
            let ghost pre_vis = visible as int;
            let ghost gi = i as int;
            if score.first != score.last {
                if score.first == i {
                    if selected {
                        rv.append(self.fg.matched_selected.as_str());
                        rv.append(self.bg.matched_selected.as_str());
                    } else {
                        rv.append(self.fg.matched.as_str());
                        rv.append(self.bg.matched.as_str());
                    }
                    proof {
                        body_acc = pre_acc + on;
                        assert(rv@ =~= prefix + body_acc);
                    }
                } else if score.last == i {
                    if selected {
                        rv.append(self.fg.selected.as_str());
                        rv.append(self.bg.selected.as_str());
                    } else {
                        rv.append(self.fg.normal.as_str());
                        rv.append(self.bg.normal.as_str());
                    }
                    proof {
                        body_acc = pre_acc + off;
                        assert(rv@ =~= prefix + body_acc);
                    }
                }
            }
            let ghost acc1 = body_acc;
            let c = chars[i];
            if c == '\t' {
                let ghost k = tab_expand(pre_vis, width as int);
                let ghost tab_v0 = pre_vis;
                proof {
                    lemma_tab_expand_bounds(pre_vis, width as int);
                }
                loop
                    invariant_except_break
                        width == self.width,
                        self.wf(),
                        k == tab_expand(tab_v0, width as int),
                        1 <= k <= 8,
                        0 <= tab_v0 < usize::MAX - 8,
                        tab_v0 <= visible as int,
                        visible as int - tab_v0 < k,
                        rv@ == prefix + acc1 + spaces(visible as int - tab_v0),
                        tab_expand(visible as int, width as int) == k - (visible as int
                            - tab_v0),
                    ensures
                        visible as int == tab_v0 + k,
                        rv@ == prefix + acc1 + spaces(k),
                    decreases 8 - (visible as int % 8),
                {
                    let ghost pv = visible as int;
                    push_char(&mut rv, ' ');
                    proof {
                        assert(spaces(pv - tab_v0 + 1) == spaces(pv - tab_v0).push(' '));
                        assert(rv@ =~= prefix + acc1 + spaces(pv - tab_v0 + 1));
                    }
                    visible += 1;
                    if visible % 8 == 0 || visible >= width {
                        proof {
                            assert(tab_expand(pv, width as int) == 1);
                        }
                        break ;
                    }
                    proof {
                        assert(tab_expand(pv, width as int) == 1 + tab_expand(
                            pv + 1,
                            width as int,
                        ));
                        lemma_tab_expand_bounds(pv + 1, width as int);
                    }
                }
                proof {
                    body_acc = acc1 + spaces(k);
                }
                if width <= visible {
                    proof {
                        assert(hl_body(
                            chars@,
                            d.0,
                            d.1,
                            on,
                            off,
                            width as int,
                            gi,
                            pre_vis,
                            pre_acc,
                        ) == body_acc);
                    }
                    break ;
                }
                i += 1;
            } else {
                let w: usize = match char_width(c) {
                    Some(x) => x,
                    None => 0,
                };
                if width > visible && visible + w <= width {
                    push_char(&mut rv, c);
                    proof {
                        body_acc = acc1.push(c);
                        assert(rv@ =~= prefix + body_acc);
                    }
                    visible += w;
                    if width <= visible {
                        proof {
                            assert(hl_body(
                                chars@,
                                d.0,
                                d.1,
                                on,
                                off,
                                width as int,
                                gi,
                                pre_vis,
                                pre_acc,
                            ) == body_acc);
                        }
                        break ;
                    }
                    i += 1;
                } else {
                    proof {
                        body_acc = acc1;
                        assert(hl_body(
                            chars@,
                            d.0,
                            d.1,
                            on,
                            off,
                            width as int,
                            gi,
                            pre_vis,
                            pre_acc,
                        ) == body_acc);
                    }
                    break ;
                }
            }
        }
        rv.append("\x1B[39m");
        rv.append("\x1B[49m");
        rv.append("\x1B[m");
        rv.append("\x1B[K");
        proof {
            assert(rv@ =~= highlight_spec(
                *self.fg,
                *self.bg,
                self.tagged@,
                self.width as int,
                score_data(*score),
                selected,
            ));
        }
        rv
    }

    /// The rows of one frame: an empty row standing for the status row,
    /// then the top visible results, each rendered and highlighted.
    pub open spec fn spec_rows(self) -> Seq<Seq<char>> {
        Seq::new(
            (1 + self.spec_num_visible()) as nat,
            |i: int|
                if i == 0 {
                    Seq::<char>::empty()
                } else {
                    highlight_spec(
                        *self.fg,
                        *self.bg,
                        self.tagged@,
                        self.width as int,
                        score_data(self.scores@[i - 1]),
                        self.selected == i - 1,
                    )
                },
        )
    }

    /// Renders the content rows: a placeholder for the status row, then
    /// one row per visible result, the selected one in its selected roles.
    pub fn render_lines(&self) -> (r: Vec<String>)
        requires
            self.wf(),
        ensures
            r@.len() == self.spec_rows().len(),
            forall|i: int| 0 <= i < r@.len() ==> #[trigger] r@[i]@ == self.spec_rows()[i],
    {
        let mut lines: Vec<String> = Vec::new();
        lines.push(String::new());
        let nv = self.num_visible();
        let mut i: usize = 0;
        while i < nv
            invariant
                self.wf(),
                nv as int == self.spec_num_visible(),
                nv <= self.scores@.len(),
                0 <= i <= nv,
                lines@.len() == 1 + i,
                forall|j: int| 0 <= j < lines@.len() ==> #[trigger] lines@[j]@ == self.spec_rows()[j],
            decreases nv - i,
        {
            let row = self.highlight_line(&self.scores[i], self.selected == i);
            lines.push(row);
            i += 1;
        }
        lines
    }

    /// One whole frame: the rows joined with carriage-return line-feeds, a
    /// clear-after-cursor directive, the cursor moved back up over the
    /// content rows, and the status row last, leaving the cursor on it.
    pub open spec fn spec_render(self) -> Seq<char> {
        joined_rows(self.spec_rows()) + "\x1B[J"@ + (if self.spec_num_visible() > 0 {
            "\x1B["@ + dec_chars(self.spec_num_visible() as nat) + "A"@
        } else {
            Seq::<char>::empty()
        }) + "\r"@ + search_line_spec(
            self.match_count_length as int,
            self.scores@.len() as nat,
            self.query@,
            self.width as int,
        )
    }

    pub fn render(&self) -> (r: String)
        requires
            self.wf(),
        ensures
            r@ == self.spec_render(),
    {
        let lines = self.render_lines();
        let ghost rows = self.spec_rows();
        let mut output = String::new();
        let mut i: usize = 0;
        let n = lines.len();
        while i < n
            invariant
                n == lines@.len(),
                n == rows.len(),
                forall|j: int| 0 <= j < n ==> #[trigger] lines@[j]@ == rows[j],
                0 <= i <= n,
                output@ == joined_rows(rows.take(i as int)),
            decreases n - i,
        {
            if i > 0 {
                output.append("\r\n");
            }
            output.append(lines[i].as_str());
            proof {
                let t = rows.take(i as int + 1);
                assert(t.drop_last() =~= rows.take(i as int));
                assert(t.last() == rows[i as int]);
                assert(output@ =~= joined_rows(t));
            }
            i += 1;
        }
        proof {
            assert(rows.take(n as int) =~= rows);
        }
        output.append("\x1B[J");
        let nv = self.num_visible();
        if nv > 0 {
            output.append("\x1B[");
            let mut digits: Vec<char> = Vec::new();
            push_dec(&mut digits, nv);
            let ds = chars_to_string(&digits);
            output.append(ds.as_str());
            output.append("A");
        }
        output.append("\r");
        let status = self.render_search_line(self.scores.len());
        output.append(status.as_str());
        proof {
            assert(output@ =~= self.spec_render());
        }
        output
    }

    /// The sequence a full redraw starts from: carriage return, then clear
    /// everything after the cursor.
    pub fn clear() -> (r: String)
        ensures
            r@ == "\r\x1B[J"@,
    {
        let mut s = String::from_str("\r");
        s.append("\x1B[J");
        proof {
            reveal_strlit("\r");
            reveal_strlit("\x1B[J");
            reveal_strlit("\r\x1B[J");
            assert(s@ =~= "\r\x1B[J"@);
        }
        s
    }
}

} // verus!
