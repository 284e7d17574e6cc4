//! What translated text may look like on the screen.
use vstd::prelude::*;
use crate::error::{plain, Fault, PatchError};
use crate::ko_text::{parse_text, tokens_of, MONEY_TEXT_BYTE, TextToken};
use crate::script::fault_outcome;
use crate::script_bins::position_views;
use crate::text::{dec, text};

verus! {

/// How many tiles of a text line are visible.
pub const GG_VISIBLE_TEXT_COLUMNS: usize = 20;

// ---------------------------------------------------------------------------
// Line width
// ---------------------------------------------------------------------------

/// The column after the first `n` tokens: visible tokens take one tile each, and
/// breaks, pauses and ends start a new line.
pub open spec fn column_after(tokens: Seq<TextToken>, n: int) -> int
    decreases n,
{
    if n <= 0 {
        0
    } else {
        match tokens[n - 1] {
            TextToken::Char(_) | TextToken::Money | TextToken::Raw(_) => column_after(
                tokens,
                n - 1,
            ) + 1,
            TextToken::Br | TextToken::Wait | TextToken::End => 0,
            TextToken::Flags(_) => column_after(tokens, n - 1),
        }
    }
}

/// Whether no line of tokens is wider than `max` tiles.
pub open spec fn lines_fit(tokens: Seq<TextToken>, max: int) -> bool {
    forall|n: int| 0 <= n <= tokens.len() ==> #[trigger] column_after(tokens, n) <= max
}

/// What is wrong with the width of a text, if anything.
pub open spec fn width_fault(id: Seq<char>, s: Seq<char>, max: int) -> Option<Fault> {
    match tokens_of(s) {
        Err(e) => Some(e),
        Ok(tokens) => if lines_fit(tokens, max) {
            None
        } else {
            Some(
                plain(
                    id + ": visible line exceeds "@ + dec(max) + " tiles (got at least "@ + dec(
                        max + 1,
                    ) + ")"@,
                ),
            )
        },
    }
}

/// Checks that no line of a text is wider than the screen shows.
pub fn validate_visible_line_ceiling(id: &str, s: &str, max_tiles: usize) -> (res: Result<
    (),
    PatchError,
>)
    ensures
        fault_outcome(res) == width_fault(id@, s@, max_tiles as int),
{
    let tokens = match parse_text(s) {
        Ok(tokens) => tokens,
        Err(e) => {
            return Err(e);
        },
    };
    let mut column: usize = 0;
    let mut k: usize = 0;
    while k < tokens.len()
        invariant
            k <= tokens@.len(),
            tokens_of(s@) == Ok::<Seq<TextToken>, Fault>(tokens@),
            column == column_after(tokens@, k as int),
            column <= k,
            column <= max_tiles,
            forall|n: int| 0 <= n <= k ==> #[trigger] column_after(tokens@, n) <= max_tiles,
        decreases tokens@.len() - k,
    {
        match tokens[k] {
            TextToken::Char(_) | TextToken::Money | TextToken::Raw(_) => {
                column += 1;
                if column > max_tiles {
                    proof {
                        assert(column_after(tokens@, k + 1) > max_tiles);
                        assert(!lines_fit(tokens@, max_tiles as int));
                    }
                    return Err(
                        text(id).lit(": visible line exceeds ").dec(max_tiles).lit(
                            " tiles (got at least ",
                        ).dec(column).lit(")").fail(),
                    );
                }
            },
            TextToken::Br | TextToken::Wait | TextToken::End => {
                column = 0;
            },
            TextToken::Flags(_) => {},
        }
        k += 1;
    }
    Ok(())
}

// ---------------------------------------------------------------------------
// Shop layout
// ---------------------------------------------------------------------------

/// What a shop text shows: how wide each line is, where the currency sign stands
/// (line and column), and how often the text ends.
#[verifier::ext_equal]
pub struct LayoutView {
    /// The width of each line.
    pub widths: Seq<int>,
    /// The places of the currency sign.
    pub money: Seq<(int, int)>,
    /// The column that comes next.
    pub column: int,
    /// How many end tags there are.
    pub ends: int,
}

/// A layout after one more visible tile.
pub open spec fn with_tile(l: LayoutView) -> LayoutView {
    LayoutView {
        widths: l.widths.update(l.widths.len() - 1, l.column + 1),
        column: l.column + 1,
        ..l
    }
}

/// A layout with the currency sign marked at the next place.
pub open spec fn with_money(l: LayoutView) -> LayoutView {
    LayoutView { money: l.money.push((l.widths.len() - 1, l.column)), ..l }
}

/// The layout of the first `n` tokens.
pub open spec fn layout_after(tokens: Seq<TextToken>, n: int) -> LayoutView
    decreases n,
{
    if n <= 0 {
        LayoutView { widths: seq![0int], money: Seq::empty(), column: 0, ends: 0 }
    } else {
        let l = layout_after(tokens, n - 1);
        match tokens[n - 1] {
            TextToken::Char(ch) => if ch == '金' {
                with_tile(with_money(l))
            } else {
                with_tile(l)
            },
            TextToken::Money => with_tile(with_money(l)),
            TextToken::Raw(_) => with_tile(l),
            TextToken::Br => LayoutView { widths: l.widths.push(0), column: 0, ..l },
            TextToken::End => LayoutView { ends: l.ends + 1, ..l },
            TextToken::Wait | TextToken::Flags(_) => l,
        }
    }
}

/// The layout of a shop text, which must end exactly once.
pub open spec fn shop_layout(id: Seq<char>, s: Seq<char>) -> Result<LayoutView, Fault> {
    match tokens_of(s) {
        Err(e) => Err(e),
        Ok(tokens) => {
            let l = layout_after(tokens, tokens.len() as int);
            if l.ends == 1 {
                Ok(l)
            } else {
                Err(plain(id + ": shop entry must have exactly one end tag, got "@ + dec(l.ends)))
            }
        },
    }
}

/// What a shop text shows.
#[derive(Debug)]
pub struct ShopVisibleLayout {
    /// The width of each line.
    pub line_widths: Vec<usize>,
    /// The places of the currency sign: line and column.
    pub money: Vec<(usize, usize)>,
}

/// The models of places.
pub open spec fn place_views(list: Seq<(usize, usize)>) -> Seq<(int, int)> {
    Seq::new(list.len(), |i: int| (list[i].0 as int, list[i].1 as int))
}

/// What a shop text shows. Fails where it does not end exactly once.
pub fn shop_visible_layout(id: &str, s: &str) -> (res: Result<ShopVisibleLayout, PatchError>)
    ensures
        match res {
            Ok(l) => shop_layout(id@, s@) matches Ok(v) && v.widths == position_views(
                l.line_widths@,
            ) && v.money == place_views(l.money@),
            Err(e) => shop_layout(id@, s@) == Err::<LayoutView, Fault>(e@),
        },
{
    let tokens = match parse_text(s) {
        Ok(tokens) => tokens,
        Err(e) => {
            return Err(e);
        },
    };
    let mut widths: Vec<usize> = vec![0usize];
    let mut money: Vec<(usize, usize)> = Vec::new();
    let mut line: usize = 0;
    let mut column: usize = 0;
    let mut ends: usize = 0;
    let mut k: usize = 0;
    proof {
        let l = layout_after(tokens@, 0);
        assert(position_views(widths@) =~= l.widths);
        assert(place_views(money@) =~= l.money);
    }
    while k < tokens.len()
        invariant
            k <= tokens@.len(),
            line <= k,
            column <= k,
            ends <= k,
            widths@.len() == line + 1,
            ({
                let l = layout_after(tokens@, k as int);
                &&& l.widths == position_views(widths@)
                &&& l.money == place_views(money@)
                &&& l.column == column
                &&& l.ends == ends
            }),
        decreases tokens@.len() - k,
    {
        let ghost l = layout_after(tokens@, k as int);
        let ghost next = layout_after(tokens@, k + 1);
        let token = tokens[k];
        let sign: bool = match token {
            TextToken::Char(ch) => ch == '金',
            TextToken::Money => true,
            _ => false,
        };
        if sign {
            money.push((line, column));
            proof {
                assert(place_views(money@) =~= l.money.push((line as int, column as int)));
            }
        }
        match token {
            TextToken::Char(_) | TextToken::Money | TextToken::Raw(_) => {
                column += 1;
                widths.set(line, column);
                proof {
                    assert(position_views(widths@) =~= next.widths);
                }
            },
            TextToken::Br => {
                line += 1;
                column = 0;
                widths.push(0);
                proof {
                    assert(position_views(widths@) =~= next.widths);
                }
            },
            TextToken::End => {
                ends += 1;
            },
            TextToken::Wait | TextToken::Flags(_) => {},
        }
        k += 1;
    }
    if ends != 1 {
        return Err(
            text(id).lit(": shop entry must have exactly one end tag, got ").dec(ends).fail(),
        );
    }
    Ok(ShopVisibleLayout { line_widths: widths, money })
}

/// The places where a byte occurs, among the first `n`.
pub open spec fn positions(bytes: Seq<u8>, needle: u8, n: int) -> Seq<int>
    decreases n,
{
    if n <= 0 {
        Seq::empty()
    } else if bytes[n - 1] == needle {
        positions(bytes, needle, n - 1).push(n - 1)
    } else {
        positions(bytes, needle, n - 1)
    }
}

/// The places where a byte occurs.
pub fn byte_positions(bytes: &[u8], needle: u8) -> (list: Vec<usize>)
    ensures
        position_views(list@) == positions(bytes@, needle, bytes@.len() as int),
        forall|i: int| 0 <= i < list@.len() ==> #[trigger] list@[i] < bytes@.len(),
{
    let mut list: Vec<usize> = Vec::new();
    let mut i: usize = 0;
    proof {
        assert(position_views(list@) =~= Seq::<int>::empty());
    }
    while i < bytes.len()
        invariant
            i <= bytes@.len(),
            position_views(list@) == positions(bytes@, needle, i as int),
            forall|k: int| 0 <= k < list@.len() ==> #[trigger] list@[k] < bytes@.len(),
        decreases bytes@.len() - i,
    {
        if bytes[i] == needle {
            let ghost was = position_views(list@);
            list.push(i);
            proof {
                assert(position_views(list@) =~= was.push(i as int));
            }
        }
        i += 1;
    }
    list
}

/// How many bytes from `at` on are blanks.
pub open spec fn blanks_from(bytes: Seq<u8>, at: int) -> int
    decreases bytes.len() - at,
{
    if at < 0 || at >= bytes.len() || bytes[at] != 0x01 {
        0
    } else {
        1 + blanks_from(bytes, at + 1)
    }
}

fn count_blanks(bytes: &[u8], at: usize) -> (n: usize)
    requires
        at <= bytes@.len(),
    ensures
        n == blanks_from(bytes@, at as int),
{
    let mut k: usize = at;
    while k < bytes.len() && bytes[k] == 0x01
        invariant
            at <= k <= bytes@.len(),
            blanks_from(bytes@, at as int) == (k - at) + blanks_from(bytes@, k as int),
        decreases bytes@.len() - k,
    {
        k += 1;
    }
    k - at
}

/// What is wrong with the first `n` places of the currency sign, if anything: it
/// stays on its line and does not move to the right.
pub open spec fn money_fault(
    id: Seq<char>,
    raw: Seq<(int, int)>,
    now: Seq<(int, int)>,
    n: int,
) -> Option<Fault>
    decreases n,
{
    if n <= 0 {
        None
    } else {
        let r = raw[n - 1];
        let e = now[n - 1];
        match money_fault(id, raw, now, n - 1) {
            Some(f) => Some(f),
            None => if e.0 != r.0 {
                Some(plain(id + ": shop money moved from line "@ + dec(r.0) + " to "@ + dec(e.0)))
            } else if e.1 > r.1 {
                Some(
                    plain(
                        id + ": shop money moved right from column "@ + dec(r.1) + " to "@ + dec(
                            e.1,
                        ),
                    ),
                )
            } else {
                None
            },
        }
    }
}

/// What is wrong with the widths of the first `n` lines, if anything: none grows.
pub open spec fn widths_fault(id: Seq<char>, raw: Seq<int>, now: Seq<int>, n: int) -> Option<Fault>
    decreases n,
{
    if n <= 0 {
        None
    } else {
        match widths_fault(id, raw, now, n - 1) {
            Some(f) => Some(f),
            None => if now[n - 1] > raw[n - 1] {
                Some(
                    plain(
                        id + ": shop line "@ + dec(n - 1) + " grew from "@ + dec(raw[n - 1]) + " to "@
                            + dec(now[n - 1]) + " visible tiles"@,
                    ),
                )
            } else {
                None
            },
        }
    }
}

/// What is wrong with the layout of a translated shop text, if anything.
pub open spec fn layouts_fault(id: Seq<char>, raw: LayoutView, now: LayoutView) -> Option<Fault> {
    if now.money.len() != raw.money.len() {
        Some(
            plain(
                id + ": shop money screen anchor count changed: raw "@ + dec(raw.money.len() as int)
                    + ", encoded "@ + dec(now.money.len() as int),
            ),
        )
    } else {
        match money_fault(id, raw.money, now.money, raw.money.len() as int) {
            Some(f) => Some(f),
            None => if now.widths.len() != raw.widths.len() {
                Some(
                    plain(
                        id + ": shop visible line count changed: raw "@ + dec(raw.widths.len() as int)
                            + ", encoded "@ + dec(now.widths.len() as int),
                    ),
                )
            } else {
                widths_fault(id, raw.widths, now.widths, raw.widths.len() as int)
            },
        }
    }
}

/// What is wrong with the bytes of a translated shop text, if anything: same length,
/// one currency sign, same blanks behind it.
pub open spec fn shop_bytes_fault(id: Seq<char>, raw: Seq<u8>, encoded: Seq<u8>, len: int) -> Option<Fault> {
    let raw_at = positions(raw, 0x0C, raw.len() as int);
    let now_at = positions(encoded, 0x0C, encoded.len() as int);
    if raw.len() != len {
        Some(
            plain(
                id + ": raw shop bytes len "@ + dec(raw.len() as int) + " != metadata len "@ + dec(
                    len,
                ),
            ),
        )
    } else if encoded.len() != len {
        Some(
            plain(
                id + ": shop translation must preserve exact source len "@ + dec(len) + " (got "@ + dec(
                    encoded.len() as int,
                ) + ")"@,
            ),
        )
    } else if raw_at.len() != 1 {
        Some(
            plain(
                id + ": raw shop entry must contain exactly one money byte, got "@ + dec(
                    raw_at.len() as int,
                ),
            ),
        )
    } else if now_at.len() != 1 {
        Some(
            plain(
                id + ": encoded shop entry must contain exactly one money byte, got "@ + dec(
                    now_at.len() as int,
                ),
            ),
        )
    } else if blanks_from(encoded, now_at[0] + 1) != blanks_from(raw, raw_at[0] + 1) {
        Some(
            plain(
                id + ": post-money price padding changed: raw "@ + dec(
                    blanks_from(raw, raw_at[0] + 1),
                ) + ", encoded "@ + dec(blanks_from(encoded, now_at[0] + 1)),
            ),
        )
    } else {
        None
    }
}

/// What is wrong with a translated shop text, if anything.
pub open spec fn shop_fault(
    id: Seq<char>,
    raw_text: Seq<char>,
    translated: Seq<char>,
    raw: Seq<u8>,
    encoded: Seq<u8>,
    len: int,
) -> Option<Fault> {
    match shop_bytes_fault(id, raw, encoded, len) {
        Some(f) => Some(f),
        None => match (shop_layout(id, raw_text), shop_layout(id, translated)) {
            (Err(e), _) => Some(e),
            (Ok(_), Err(e)) => Some(e),
            (Ok(a), Ok(b)) => layouts_fault(id, a, b),
        },
    }
}

proof fn lemma_money(id: Seq<char>, raw: Seq<(int, int)>, now: Seq<(int, int)>, k: int, n: int)
    requires
        k <= n,
        money_fault(id, raw, now, k) is Some,
    ensures
        money_fault(id, raw, now, n) == money_fault(id, raw, now, k),
    decreases n - k,
{
    if k < n {
        lemma_money(id, raw, now, k, n - 1);
    }
}

proof fn lemma_widths(id: Seq<char>, raw: Seq<int>, now: Seq<int>, k: int, n: int)
    requires
        k <= n,
        widths_fault(id, raw, now, k) is Some,
    ensures
        widths_fault(id, raw, now, n) == widths_fault(id, raw, now, k),
    decreases n - k,
{
    if k < n {
        lemma_widths(id, raw, now, k, n - 1);
    }
}

fn check_shop_bytes(id: &str, raw: &[u8], encoded: &[u8], expected_len: usize) -> (res: Result<
    (),
    PatchError,
>)
    ensures
        fault_outcome(res) == shop_bytes_fault(id@, raw@, encoded@, expected_len as int),
{
    if raw.len() != expected_len {
        return Err(
            text(id).lit(": raw shop bytes len ").dec(raw.len()).lit(" != metadata len ").dec(
                expected_len,
            ).fail(),
        );
    }
    if encoded.len() != expected_len {
        return Err(
            text(id).lit(": shop translation must preserve exact source len ").dec(
                expected_len,
            ).lit(" (got ").dec(encoded.len()).lit(")").fail(),
        );
    }
    let raw_at = byte_positions(raw, MONEY_TEXT_BYTE);
    if raw_at.len() != 1 {
        return Err(
            text(id).lit(": raw shop entry must contain exactly one money byte, got ").dec(
                raw_at.len(),
            ).fail(),
        );
    }
    let now_at = byte_positions(encoded, MONEY_TEXT_BYTE);
    if now_at.len() != 1 {
        return Err(
            text(id).lit(": encoded shop entry must contain exactly one money byte, got ").dec(
                now_at.len(),
            ).fail(),
        );
    }
    proof {
        assert(position_views(raw_at@)[0] == raw_at@[0]);
        assert(position_views(now_at@)[0] == now_at@[0]);
    }
    let raw_padding: usize = count_blanks(raw, raw_at[0] + 1);
    let now_padding: usize = count_blanks(encoded, now_at[0] + 1);
    if now_padding != raw_padding {
        return Err(
            text(id).lit(": post-money price padding changed: raw ").dec(raw_padding).lit(
                ", encoded ",
            ).dec(now_padding).fail(),
        );
    }
    Ok(())
}

fn check_layouts(
    id: &str,
    raw: &ShopVisibleLayout,
    now: &ShopVisibleLayout,
    raw_view: Ghost<LayoutView>,
    now_view: Ghost<LayoutView>,
) -> (res: Result<(), PatchError>)
    requires
        raw_view@.widths == position_views(raw.line_widths@),
        raw_view@.money == place_views(raw.money@),
        now_view@.widths == position_views(now.line_widths@),
        now_view@.money == place_views(now.money@),
    ensures
        fault_outcome(res) == layouts_fault(id@, raw_view@, now_view@),
{
    if now.money.len() != raw.money.len() {
        return Err(
            text(id).lit(": shop money screen anchor count changed: raw ").dec(
                raw.money.len(),
            ).lit(", encoded ").dec(now.money.len()).fail(),
        );
    }
    let ghost a = raw_view@.money;
    let ghost b = now_view@.money;
    let mut i: usize = 0;
    while i < raw.money.len()
        invariant
            i <= raw.money@.len(),
            raw.money@.len() == now.money@.len(),
            a == place_views(raw.money@),
            b == place_views(now.money@),
            a == raw_view@.money,
            b == now_view@.money,
            money_fault(id@, a, b, i as int) is None,
        decreases raw.money@.len() - i,
    {
        let (raw_line, raw_column) = raw.money[i];
        let (now_line, now_column) = now.money[i];
        if now_line != raw_line {
            proof {
                lemma_money(id@, a, b, i + 1, a.len() as int);
            }
            return Err(
                text(id).lit(": shop money moved from line ").dec(raw_line).lit(" to ").dec(
                    now_line,
                ).fail(),
            );
        }
        if now_column > raw_column {
            proof {
                lemma_money(id@, a, b, i + 1, a.len() as int);
            }
            return Err(
                text(id).lit(": shop money moved right from column ").dec(raw_column).lit(
                    " to ",
                ).dec(now_column).fail(),
            );
        }
        i += 1;
    }
    if now.line_widths.len() != raw.line_widths.len() {
        return Err(
            text(id).lit(": shop visible line count changed: raw ").dec(
                raw.line_widths.len(),
            ).lit(", encoded ").dec(now.line_widths.len()).fail(),
        );
    }
    let ghost wa = raw_view@.widths;
    let ghost wb = now_view@.widths;
    let mut i: usize = 0;
    while i < raw.line_widths.len()
        invariant
            i <= raw.line_widths@.len(),
            raw.line_widths@.len() == now.line_widths@.len(),
            wa == position_views(raw.line_widths@),
            wb == position_views(now.line_widths@),
            wa == raw_view@.widths,
            wb == now_view@.widths,
            raw_view@.money.len() == now_view@.money.len(),
            money_fault(
                id@,
                raw_view@.money,
                now_view@.money,
                raw_view@.money.len() as int,
            ) is None,
            widths_fault(id@, wa, wb, i as int) is None,
        decreases raw.line_widths@.len() - i,
    {
        if now.line_widths[i] > raw.line_widths[i] {
            proof {
                lemma_widths(id@, wa, wb, i + 1, wa.len() as int);
            }
            return Err(
                text(id).lit(": shop line ").dec(i).lit(" grew from ").dec(
                    raw.line_widths[i],
                ).lit(" to ").dec(now.line_widths[i]).lit(" visible tiles").fail(),
            );
        }
        i += 1;
    }
    Ok(())
}

/// Checks that a translated shop text keeps the fixed layout of its source: length,
/// currency sign, price padding, lines and widths.
pub fn validate_shop_layout(
    id: &str,
    raw_text: &str,
    translated_text: &str,
    raw: &[u8],
    encoded: &[u8],
    expected_len: usize,
) -> (res: Result<(), PatchError>)
    ensures
        fault_outcome(res) == shop_fault(
            id@,
            raw_text@,
            translated_text@,
            raw@,
            encoded@,
            expected_len as int,
        ),
{
    match check_shop_bytes(id, raw, encoded, expected_len) {
        Ok(_) => {},
        Err(e) => {
            return Err(e);
        },
    }
    let a = match shop_visible_layout(id, raw_text) {
        Ok(l) => l,
        Err(e) => {
            return Err(e);
        },
    };
    let b = match shop_visible_layout(id, translated_text) {
        Ok(l) => l,
        Err(e) => {
            return Err(e);
        },
    };
    check_layouts(
        id,
        &a,
        &b,
        Ghost(shop_layout(id@, raw_text@)->Ok_0),
        Ghost(shop_layout(id@, translated_text@)->Ok_0),
    )
}

/// A shop translation that passes has the length of its source and no line that is
/// wider than the same line of the source.
pub proof fn law_shop_text_keeps_its_place(
    id: Seq<char>,
    raw_text: Seq<char>,
    translated: Seq<char>,
    raw: Seq<u8>,
    encoded: Seq<u8>,
    len: int,
    line: int,
)
    requires
        shop_fault(id, raw_text, translated, raw, encoded, len) is None,
        0 <= line < shop_layout(id, raw_text)->Ok_0.widths.len(),
    ensures
        encoded.len() == raw.len(),
        shop_layout(id, translated)->Ok_0.widths.len() == shop_layout(
            id,
            raw_text,
        )->Ok_0.widths.len(),
        shop_layout(id, translated)->Ok_0.widths[line] <= shop_layout(
            id,
            raw_text,
        )->Ok_0.widths[line],
{
    let a = shop_layout(id, raw_text)->Ok_0.widths;
    let b = shop_layout(id, translated)->Ok_0.widths;
    if widths_fault(id, a, b, line + 1) is Some {
        lemma_widths(id, a, b, line + 1, a.len() as int);
    }
}

} // verus!
