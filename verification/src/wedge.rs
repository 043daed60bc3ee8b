//! Keyboard (wedge) mode: which readings are typed and how.
use vstd::prelude::*;
use crate::config::WedgeConfig;
use crate::decimal::{fixed_text, lemma_fixed_ascii, Decimal};
use crate::events::SignedEvent;
use crate::text::{ascii_chars, ascii_string};

verus! {

/// A key pressed after the typed weight.
#[derive(Clone, Copy, Debug, PartialEq, Eq, Structural)]
pub enum SeparatorKey {
    Tab,
    Enter,
}

/// Keys for a separator name: "tab" → Tab; "enter" → Enter; "tab_enter" or
/// "tab+enter" → Tab then Enter; any other name → none.
pub open spec fn separator_spec(sep: Seq<char>) -> Seq<SeparatorKey> {
    if sep == "tab"@ {
        seq![SeparatorKey::Tab]
    } else if sep == "enter"@ {
        seq![SeparatorKey::Enter]
    } else if sep == "tab_enter"@ || sep == "tab+enter"@ {
        seq![SeparatorKey::Tab, SeparatorKey::Enter]
    } else {
        Seq::empty()
    }
}

/// Keys to press after a typed weight.
pub fn separator_keys(separator: &str) -> (r: Vec<SeparatorKey>)
    ensures
        r@ == separator_spec(separator@),
{
    let s = separator.to_owned();
    let mut keys: Vec<SeparatorKey> = Vec::new();
    if s == "tab".to_owned() {
        keys.push(SeparatorKey::Tab);
    } else if s == "enter".to_owned() {
        keys.push(SeparatorKey::Enter);
    } else if s == "tab_enter".to_owned() || s == "tab+enter".to_owned() {
        keys.push(SeparatorKey::Tab);
        keys.push(SeparatorKey::Enter);
    }
    proof {
        assert(keys@ =~= separator_spec(separator@));
    }
    keys
}

/// A reading is typed unless it is unstable while only stable readings are
/// wanted, or less than the minimum interval passed since the last typed one.
pub open spec fn should_type_spec(
    cfg: WedgeConfig,
    stable: bool,
    since_last_ms: Option<u64>,
) -> bool {
    &&& !(cfg.stable_only && !stable)
    &&& match since_last_ms {
        Some(t) => t >= cfg.min_interval_ms,
        None => true,
    }
}

/// Whether a reading is typed (`since_last_ms`: time since the last typed weight, if any).
pub fn should_type(cfg: &WedgeConfig, stable: bool, since_last_ms: Option<u64>) -> (r: bool)
    ensures
        r == should_type_spec(*cfg, stable, since_last_ms),
{
    if cfg.stable_only && !stable {
        return false;
    }
    match since_last_ms {
        Some(t) => t >= cfg.min_interval_ms,
        None => true,
    }
}

/// The weight as typed: three decimals (`{:.3}`).
pub fn weight_text(value: &Decimal) -> (r: String)
    ensures
        r@ == ascii_chars(fixed_text(value@, 3)),
{
    let t = value.fixed(3);
    proof {
        lemma_fixed_ascii(value@, 3);
    }
    ascii_string(t)
}

/// Text copied to the clipboard: weight, a space, unit.
pub fn clipboard_text(weight: &str, unit: &str) -> (r: String)
    ensures
        r@ == weight@ + " "@ + unit@,
{
    let mut s = weight.to_owned();
    s.append(" ");
    s.append(unit);
    s
}

// ── The wedge over a stream of readings ─────────────────────────────────────

/// Milliseconds from `from` to `to` on a monotonic clock (0 when `to` is earlier).
pub open spec fn elapsed_ms(from: u64, to: u64) -> u64 {
    if to >= from {
        (to - from) as u64
    } else {
        0
    }
}

/// Time since the last typed weight at `now`, when one was typed.
pub open spec fn since_last(last_typed: Option<u64>, now: u64) -> Option<u64> {
    match last_typed {
        Some(t) => Some(elapsed_ms(t, now)),
        None => None,
    }
}

/// The wedge types a reading arriving at `now`: keyboard mode is on and
/// [`should_type_spec`] holds for the time since the last typed weight.
pub open spec fn attempts_spec(cfg: WedgeConfig, last_typed: Option<u64>, stable: bool, now: u64) -> bool {
    cfg.enabled && should_type_spec(cfg, stable, since_last(last_typed, now))
}

/// What the wedge does with a reading.
pub enum WedgeAction {
    /// Nothing.
    Skip,
    /// Copy `clipboard` to the clipboard when given, type `text`, then press `keys`.
    Type { text: String, clipboard: Option<String>, keys: Vec<SeparatorKey> },
}

/// The wedge's action on `event`, arriving at `now_ms` (monotonic
/// milliseconds) when the last weight was typed at `last_typed_ms`.
pub fn wedge_step(cfg: &WedgeConfig, last_typed_ms: Option<u64>, event: &SignedEvent, now_ms: u64) -> (r: WedgeAction)
    ensures
        r is Skip <==> !attempts_spec(*cfg, last_typed_ms, event.stable, now_ms),
        r matches WedgeAction::Type { text, clipboard, keys } ==> {
            &&& text@ == ascii_chars(fixed_text(event.value@, 3))
            &&& keys@ == separator_spec(cfg.separator@)
            &&& (cfg.clipboard ==> (clipboard matches Some(c) && c@ == text@ + " "@ + event.unit@))
            &&& (!cfg.clipboard ==> clipboard is None)
        },
{
    if !cfg.enabled {
        return WedgeAction::Skip;
    }
    let since = match last_typed_ms {
        Some(t) => Some(if now_ms >= t { now_ms - t } else { 0 }),
        None => None,
    };
    if !should_type(cfg, event.stable, since) {
        return WedgeAction::Skip;
    }
    let text = weight_text(&event.value);
    let clipboard = if cfg.clipboard {
        Some(clipboard_text(text.as_str(), event.unit.as_str()))
    } else {
        None
    };
    let keys = separator_keys(cfg.separator.as_str());
    WedgeAction::Type { text, clipboard, keys }
}

/// Time of the last typed weight after typing was attempted and finished at
/// `typed_at_ms`: it moves only when the typing succeeded.
pub fn after_attempt(last_typed_ms: Option<u64>, typed_ok: bool, typed_at_ms: u64) -> (r: Option<u64>)
    ensures
        r == (if typed_ok {
            Some(typed_at_ms)
        } else {
            last_typed_ms
        }),
{
    if typed_ok {
        Some(typed_at_ms)
    } else {
        last_typed_ms
    }
}

/// One reading as the wedge meets it: its stability, when it arrives, and,
/// should it be typed, whether typing succeeded and when it finished.
pub struct WedgeInput {
    pub stable: bool,
    pub now_ms: u64,
    pub typed_ok: bool,
    pub typed_at_ms: u64,
}

/// Time of the last typed weight after the reading `inp`.
pub open spec fn wedge_next(cfg: WedgeConfig, last_typed: Option<u64>, inp: WedgeInput) -> Option<u64> {
    if attempts_spec(cfg, last_typed, inp.stable, inp.now_ms) && inp.typed_ok {
        Some(inp.typed_at_ms)
    } else {
        last_typed
    }
}

/// Time of the last typed weight after the readings `inps`, starting from `last0`.
pub open spec fn wedge_last(cfg: WedgeConfig, last0: Option<u64>, inps: Seq<WedgeInput>) -> Option<u64>
    decreases inps.len(),
{
    if inps.len() == 0 {
        last0
    } else {
        wedge_next(cfg, wedge_last(cfg, last0, inps.drop_last()), inps.last())
    }
}

/// The `i`-th reading of `inps` was typed successfully.
pub open spec fn typed_ok_at(cfg: WedgeConfig, last0: Option<u64>, inps: Seq<WedgeInput>, i: int) -> bool {
    &&& attempts_spec(cfg, wedge_last(cfg, last0, inps.take(i)), inps[i].stable, inps[i].now_ms)
    &&& inps[i].typed_ok
}

proof fn lemma_typed_ok_prefix(cfg: WedgeConfig, last0: Option<u64>, inps: Seq<WedgeInput>, n: int, i: int)
    requires
        0 <= i < n <= inps.len(),
    ensures
        typed_ok_at(cfg, last0, inps.take(n), i) == typed_ok_at(cfg, last0, inps, i),
{
    assert(inps.take(n).take(i) =~= inps.take(i));
}

/// Over any stream of readings, the time of the last typed weight changes
/// only on a successful typing: it is the finishing time of the latest
/// reading typed successfully, or the starting value when none was.
pub proof fn lemma_wedge_last_typed(cfg: WedgeConfig, last0: Option<u64>, inps: Seq<WedgeInput>)
    ensures
        (forall|i: int| 0 <= i < inps.len() ==> !#[trigger] typed_ok_at(cfg, last0, inps, i))
            ==> wedge_last(cfg, last0, inps) == last0,
        forall|j: int|
            0 <= j < inps.len() && #[trigger] typed_ok_at(cfg, last0, inps, j) && (forall|i: int|
                j < i < inps.len() ==> !#[trigger] typed_ok_at(cfg, last0, inps, i))
                ==> wedge_last(cfg, last0, inps) == Some(inps[j].typed_at_ms),
    decreases inps.len(),
{
    if inps.len() > 0 {
        let n = inps.len() - 1;
        let p = inps.drop_last();
        lemma_wedge_last_typed(cfg, last0, p);
        assert(p =~= inps.take(n));
        assert forall|i: int| 0 <= i < n implies #[trigger] typed_ok_at(cfg, last0, p, i)
            == typed_ok_at(cfg, last0, inps, i) by {
            lemma_typed_ok_prefix(cfg, last0, inps, n, i);
        }
        assert(wedge_last(cfg, last0, inps) == wedge_next(cfg, wedge_last(cfg, last0, p), inps[n]));
        if (forall|i: int| 0 <= i < inps.len() ==> !#[trigger] typed_ok_at(cfg, last0, inps, i)) {
            assert(!typed_ok_at(cfg, last0, inps, n));
            assert forall|i: int| 0 <= i < p.len() implies !#[trigger] typed_ok_at(cfg, last0, p, i) by {
                assert(!typed_ok_at(cfg, last0, inps, i));
            }
        }
        assert forall|j: int|
            0 <= j < inps.len() && #[trigger] typed_ok_at(cfg, last0, inps, j) && (forall|i: int|
                j < i < inps.len() ==> !#[trigger] typed_ok_at(cfg, last0, inps, i))
            implies wedge_last(cfg, last0, inps) == Some(inps[j].typed_at_ms) by {
            if j < n {
                assert(!typed_ok_at(cfg, last0, inps, n));
                assert(typed_ok_at(cfg, last0, p, j));
                assert forall|i: int| j < i < p.len() implies !#[trigger] typed_ok_at(cfg, last0, p, i) by {
                    assert(!typed_ok_at(cfg, last0, inps, i));
                }
            }
        }
    }
}

/// Between two readings typed successfully one after the other, at least
/// the minimum interval passes from the end of the first typing to the
/// arrival of the second reading; and a typed reading is stable whenever
/// only stable readings are wanted, with keyboard mode on.
pub proof fn lemma_wedge_min_interval(
    cfg: WedgeConfig,
    last0: Option<u64>,
    inps: Seq<WedgeInput>,
    i: int,
    j: int,
)
    requires
        0 <= i < j < inps.len(),
        typed_ok_at(cfg, last0, inps, i),
        typed_ok_at(cfg, last0, inps, j),
        forall|k: int| i < k < j ==> !#[trigger] typed_ok_at(cfg, last0, inps, k),
    ensures
        elapsed_ms(inps[i].typed_at_ms, inps[j].now_ms) >= cfg.min_interval_ms,
        cfg.enabled,
        cfg.stable_only ==> inps[j].stable,
{
    let q = inps.take(j);
    lemma_wedge_last_typed(cfg, last0, q);
    assert forall|k: int| 0 <= k < j implies #[trigger] typed_ok_at(cfg, last0, q, k)
        == typed_ok_at(cfg, last0, inps, k) by {
        lemma_typed_ok_prefix(cfg, last0, inps, j, k);
    }
    assert(typed_ok_at(cfg, last0, q, i));
    assert(q[i] == inps[i]);
    assert forall|k: int| i < k < q.len() implies !#[trigger] typed_ok_at(cfg, last0, q, k) by {
        assert(!typed_ok_at(cfg, last0, inps, k));
    }
    assert(wedge_last(cfg, last0, q) == Some(inps[i].typed_at_ms));
}

} // verus!
