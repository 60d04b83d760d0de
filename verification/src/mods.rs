//! Gameplay mods: decoding the mods bitfield of a client and putting mod
//! acronyms in their canonical order.

use vstd::prelude::*;
use crate::text::{chars_of, contains, spec_contains};

verus! {

/// Declares `serde_json::Value`, the settings of a mod, as an opaque type
/// for the library; nothing is claimed of its values.
#[verifier::external_type_specification]
#[verifier::external_body]
pub struct ExJsonValue(serde_json::Value);

/// One active mod: its acronym, and settings (never filled by the decoder).
#[derive(Debug, Clone)]
pub struct ModInfo {
    pub acronym: String,
    pub settings: Option<serde_json::Value>,
}

/// The mods of a client: the active mods and their canonical acronym string.
#[derive(Debug, Clone)]
pub struct GameplayMods {
    pub mods: Vec<ModInfo>,
    pub mods_string: String,
}

impl Default for GameplayMods {
    /// No mods and an empty acronym string.
    fn default() -> (r: Self)
        ensures
            r.mods@.len() == 0,
            r.mods_string@.len() == 0,
    {
        GameplayMods { mods: Vec::new(), mods_string: String::new() }
    }
}

/// The number of mods that have a place in the canonical order.
pub const NUM_ORDERED_MODS: usize = 14;

/// The canonical order of mod acronyms.
pub open spec fn spec_mod_order() -> Seq<Seq<char>> {
    seq![
        seq!['E', 'Z'], seq!['N', 'F'], seq!['H', 'T'], seq!['H', 'R'], seq!['S', 'D'],
        seq!['P', 'F'], seq!['D', 'T'], seq!['N', 'C'], seq!['H', 'D'], seq!['F', 'L'],
        seq!['R', 'X'], seq!['A', 'P'], seq!['S', 'O'], seq!['T', 'D'],
    ]
}

/// The acronym shown when no mod is active.
pub open spec fn spec_no_mod() -> Seq<char> {
    seq!['N', 'M']
}

/// The `k`-th acronym of the canonical order.
pub fn mod_acronym(k: usize) -> (r: &'static str)
    requires
        k < NUM_ORDERED_MODS,
    ensures
        r@ == spec_mod_order()[k as int],
{
    let r = match k {
        0 => "EZ",
        1 => "NF",
        2 => "HT",
        3 => "HR",
        4 => "SD",
        5 => "PF",
        6 => "DT",
        7 => "NC",
        8 => "HD",
        9 => "FL",
        10 => "RX",
        11 => "AP",
        12 => "SO",
        _ => "TD",
    };
    proof {
        reveal_strlit("EZ");
        reveal_strlit("NF");
        reveal_strlit("HT");
        reveal_strlit("HR");
        reveal_strlit("SD");
        reveal_strlit("PF");
        reveal_strlit("DT");
        reveal_strlit("NC");
        reveal_strlit("HD");
        reveal_strlit("FL");
        reveal_strlit("RX");
        reveal_strlit("AP");
        reveal_strlit("SO");
        reveal_strlit("TD");
    }
    assert(r@ =~= spec_mod_order()[k as int]);
    r
}

/// The acronyms of the canonical order that occur in `s`, in that order
/// and concatenated, looking at the first `k` of them.
pub open spec fn spec_ordered_prefix(s: Seq<char>, k: nat) -> Seq<char>
    decreases k,
{
    if k == 0 {
        Seq::empty()
    } else {
        let prev = spec_ordered_prefix(s, (k - 1) as nat);
        if spec_contains(s, spec_mod_order()[k - 1]) {
            prev + spec_mod_order()[k - 1]
        } else {
            prev
        }
    }
}

/// What `order_mods` returns for `s`: each acronym of the canonical order that
/// occurs anywhere in `s`, in that order, or `"NM"` when none does.
pub open spec fn spec_order_mods(s: Seq<char>) -> Seq<char> {
    let r = spec_ordered_prefix(s, NUM_ORDERED_MODS as nat);
    if r.len() == 0 {
        spec_no_mod()
    } else {
        r
    }
}

fn order_mods_chars(s: &[char]) -> (r: String)
    ensures
        r@ == spec_order_mods(s@),
{
    let mut result = String::new();
    let mut k: usize = 0;
    while k < NUM_ORDERED_MODS
        invariant
            k <= NUM_ORDERED_MODS,
            result@ == spec_ordered_prefix(s@, k as nat),
        decreases NUM_ORDERED_MODS - k,
    {
        let m = mod_acronym(k);
        let mc = chars_of(m);
        if contains(s, &mc) {
            result.append(m);
        }
        k = k + 1;
    }
    if result.as_str().unicode_len() == 0 {
        let nm = String::from_str("NM");
        proof {
            reveal_strlit("NM");
        }
        assert(nm@ =~= spec_no_mod());
        nm
    } else {
        result
    }
}

/// Puts the mod acronyms found anywhere in `mods_str` into the canonical
/// order `EZ NF HT HR SD PF DT NC HD FL RX AP SO TD`, concatenated; `"NM"`
/// when none occurs.
pub fn order_mods(mods_str: &str) -> (r: String)
    ensures
        r@ == spec_order_mods(mods_str@),
{
    let chars = chars_of(mods_str);
    order_mods_chars(&chars)
}

/// The bit of the mods bitfield that stands for the `k`-th acronym of the
/// canonical order.
pub open spec fn spec_mod_flag(k: int) -> u32 {
    if k == 0 { 2 }
    else if k == 1 { 1 }
    else if k == 2 { 256 }
    else if k == 3 { 16 }
    else if k == 4 { 32 }
    else if k == 5 { 16384 }
    else if k == 6 { 64 }
    else if k == 7 { 512 }
    else if k == 8 { 8 }
    else if k == 9 { 1024 }
    else if k == 10 { 128 }
    else if k == 11 { 8192 }
    else if k == 12 { 4096 }
    else { 4 }
}

/// The `DT` bit, which hides `NC`.
pub open spec fn spec_dt_flag() -> u32 {
    64
}

/// The `SD` bit, which hides `PF`.
pub open spec fn spec_sd_flag() -> u32 {
    32
}

fn mod_flag(k: usize) -> (r: u32)
    requires
        k < NUM_ORDERED_MODS,
    ensures
        r == spec_mod_flag(k as int),
{
    match k {
        0 => 2,
        1 => 1,
        2 => 256,
        3 => 16,
        4 => 32,
        5 => 16384,
        6 => 64,
        7 => 512,
        8 => 8,
        9 => 1024,
        10 => 128,
        11 => 8192,
        12 => 4096,
        _ => 4,
    }
}

/// Whether the `k`-th mod of the canonical order is reported for `mods`: its
/// bit is set, except `NC` alongside `DT` and `PF` alongside `SD`.
pub open spec fn spec_mod_selected(mods: u32, k: int) -> bool {
    &&& mods & spec_mod_flag(k) != 0
    &&& !(k == 7 && mods & spec_dt_flag() != 0)
    &&& !(k == 5 && mods & spec_sd_flag() != 0)
}

/// The acronyms reported for `mods` among the first `k` of the canonical order.
pub open spec fn spec_selected_acronyms(mods: u32, k: nat) -> Seq<Seq<char>>
    decreases k,
{
    if k == 0 {
        Seq::empty()
    } else {
        let prev = spec_selected_acronyms(mods, (k - 1) as nat);
        if spec_mod_selected(mods, k - 1) {
            prev.push(spec_mod_order()[k - 1])
        } else {
            prev
        }
    }
}

/// The acronyms reported for the bitfield `mods`, in canonical order.
pub open spec fn spec_mod_acronyms(mods: u32) -> Seq<Seq<char>> {
    if mods == 0 {
        Seq::empty()
    } else {
        spec_selected_acronyms(mods, NUM_ORDERED_MODS as nat)
    }
}

/// The acronym string reported for the bitfield `mods`.
pub open spec fn spec_mods_string(mods: u32) -> Seq<char> {
    let acr = spec_mod_acronyms(mods);
    if acr.len() == 0 {
        spec_no_mod()
    } else {
        spec_order_mods(acr.flatten())
    }
}

/// Decodes the mods bitfield of a client: one entry per set bit that has an
/// acronym (in canonical order, `NC` left out when `DT` is set and `PF` when
/// `SD` is), with no settings, and the acronym string that `order_mods`
/// makes of their concatenation (`"NM"` when there is none).
pub fn parse_mods_bitfield(mods: u32) -> (r: GameplayMods)
    ensures
        r.mods@.len() == spec_mod_acronyms(mods).len(),
        forall|k: int|
            0 <= k < r.mods@.len() ==> (#[trigger] r.mods@[k]).acronym@ == spec_mod_acronyms(
                mods,
            )[k] && r.mods@[k].settings is None,
        r.mods_string@ == spec_mods_string(mods),
{
    if mods == 0 {
        let nm = String::from_str("NM");
        proof {
            reveal_strlit("NM");
        }
        assert(nm@ =~= spec_no_mod());
        return GameplayMods { mods: Vec::new(), mods_string: nm };
    }
    let mut result: Vec<ModInfo> = Vec::new();
    let mut joined: Vec<char> = Vec::new();
    let mut k: usize = 0;
    while k < NUM_ORDERED_MODS
        invariant
            mods != 0,
            k <= NUM_ORDERED_MODS,
            result@.len() == spec_selected_acronyms(mods, k as nat).len(),
            forall|i: int|
                0 <= i < result@.len() ==> (#[trigger] result@[i]).acronym@
                    == spec_selected_acronyms(mods, k as nat)[i] && result@[i].settings is None,
            joined@ == spec_selected_acronyms(mods, k as nat).flatten(),
        decreases NUM_ORDERED_MODS - k,
    {
        let flag = mod_flag(k);
        let selected = mods & flag != 0 && !(k == 7 && mods & 64 != 0) && !(k == 5 && mods & 32
            != 0);
        let ghost prev = spec_selected_acronyms(mods, k as nat);
        if selected {
            let acr = mod_acronym(k);
            result.push(ModInfo { acronym: String::from_str(acr), settings: None });
            let ac = chars_of(acr);
            joined.push(ac[0]);
            joined.push(ac[1]);
            proof {
                let a = spec_mod_order()[k as int];
                assert(ac@ =~= seq![a[0], a[1]]);
                prev.lemma_flatten_push(a);
                assert(joined@ =~= prev.flatten() + a);
            }
        }
        k = k + 1;
    }
    let mods_string = if result.len() == 0 {
        let nm = String::from_str("NM");
        proof {
            reveal_strlit("NM");
        }
        assert(nm@ =~= spec_no_mod());
        nm
    } else {
        order_mods_chars(&joined)
    };
    GameplayMods { mods: result, mods_string }
}

/// No acronym of the canonical order is `NM`.
proof fn lemma_order_not_nm(i: int)
    requires
        0 <= i < NUM_ORDERED_MODS,
    ensures
        spec_mod_order()[i] != spec_no_mod(),
        spec_mod_order()[i].len() == 2,
{
    let o = spec_mod_order();
    assert(i == 0 || i == 1 || i == 2 || i == 3 || i == 4 || i == 5 || i == 6 || i == 7 || i == 8
        || i == 9 || i == 10 || i == 11 || i == 12 || i == 13);
    if o[i] == spec_no_mod() {
        assert(o[i][0] == 'N' && o[i][1] == 'M');
    }
}

/// The reported acronyms all come from the canonical order.
proof fn lemma_selected_from_order(mods: u32, k: nat)
    requires
        k <= NUM_ORDERED_MODS,
    ensures
        spec_selected_acronyms(mods, k).len() > 0 ==> exists|i: int|
            0 <= i < k && #[trigger] spec_mod_order()[i] == spec_selected_acronyms(mods, k)[0],
    decreases k,
{
    if k > 0 {
        lemma_selected_from_order(mods, (k - 1) as nat);
        let prev = spec_selected_acronyms(mods, (k - 1) as nat);
        if prev.len() > 0 {
            let i = choose|i: int| 0 <= i < k - 1 && #[trigger] spec_mod_order()[i] == prev[0];
            assert(spec_mod_order()[i] == spec_selected_acronyms(mods, k)[0]);
        } else if spec_mod_selected(mods, k - 1) {
            assert(spec_mod_order()[k - 1] == spec_selected_acronyms(mods, k)[0]);
        }
    }
}

/// An acronym of the canonical order that occurs in `s` makes the ordered
/// string non-empty.
proof fn lemma_ordered_prefix_nonempty(s: Seq<char>, k: nat, i: int)
    requires
        0 <= i < k <= NUM_ORDERED_MODS,
        spec_contains(s, spec_mod_order()[i]),
    ensures
        spec_ordered_prefix(s, k).len() > 0,
    decreases k,
{
    if i < k - 1 {
        lemma_ordered_prefix_nonempty(s, (k - 1) as nat, i);
    }
    lemma_order_not_nm(k - 1);
}

/// The ordered string is empty, or it begins with one whole acronym of the
/// canonical order.
proof fn lemma_ordered_prefix_shape(s: Seq<char>, k: nat)
    requires
        k <= NUM_ORDERED_MODS,
    ensures
        spec_ordered_prefix(s, k).len() == 0 || (spec_ordered_prefix(s, k).len() >= 2 && exists|i: int|
            0 <= i < k && #[trigger] spec_mod_order()[i] == spec_ordered_prefix(s, k).take(2)),
    decreases k,
{
    if k > 0 {
        lemma_ordered_prefix_shape(s, (k - 1) as nat);
        let prev = spec_ordered_prefix(s, (k - 1) as nat);
        let r = spec_ordered_prefix(s, k);
        lemma_order_not_nm(k - 1);
        if prev.len() == 0 {
            if spec_contains(s, spec_mod_order()[k - 1]) {
                assert(r =~= spec_mod_order()[k - 1]);
                assert(r.take(2) =~= spec_mod_order()[k - 1]);
            }
        } else {
            let i = choose|i: int| 0 <= i < k - 1 && #[trigger] spec_mod_order()[i] == prev.take(2);
            assert(r.take(2) =~= prev.take(2));
            assert(spec_mod_order()[i] == r.take(2));
        }
    }
}

/// The mods string of a bitfield is `NM` exactly when no mod is reported.
pub proof fn lemma_mods_string_nm_iff_no_mods(mods: u32)
    ensures
        (spec_mods_string(mods) == spec_no_mod()) <==> spec_mod_acronyms(mods).len() == 0,
{
    let acr = spec_mod_acronyms(mods);
    if acr.len() > 0 {
        assert(mods != 0);
        lemma_selected_from_order(mods, NUM_ORDERED_MODS as nat);
        let i = choose|i: int| 0 <= i < NUM_ORDERED_MODS && #[trigger] spec_mod_order()[i] == acr[0];
        lemma_order_not_nm(i);
        let flat = acr.flatten();
        assert(flat =~= acr[0] + acr.drop_first().flatten());
        assert(flat.subrange(0int, 0int + acr[0].len()) =~= acr[0]);
        assert(spec_contains(flat, spec_mod_order()[i]));
        lemma_ordered_prefix_nonempty(flat, NUM_ORDERED_MODS as nat, i);
        lemma_ordered_prefix_shape(flat, NUM_ORDERED_MODS as nat);
        let r = spec_ordered_prefix(flat, NUM_ORDERED_MODS as nat);
        let j = choose|j: int| 0 <= j < NUM_ORDERED_MODS && #[trigger] spec_mod_order()[j] == r.take(2);
        lemma_order_not_nm(j);
        if r == spec_no_mod() {
            assert(r.take(2) =~= r);
        }
    }
}

/// The acronyms among the first `n` of the canonical order that are
/// reported are exactly those whose mod is selected.
proof fn lemma_selected_contains(mods: u32, n: nat, a: Seq<char>)
    requires
        n <= NUM_ORDERED_MODS,
    ensures
        spec_selected_acronyms(mods, n).contains(a) <==> exists|i: int|
            0 <= i < n && spec_mod_selected(mods, i) && #[trigger] spec_mod_order()[i] == a,
    decreases n,
{
    if n > 0 {
        lemma_selected_contains(mods, (n - 1) as nat, a);
        let prev = spec_selected_acronyms(mods, (n - 1) as nat);
        let cur = spec_selected_acronyms(mods, n);
        if spec_mod_selected(mods, n - 1) {
            assert(cur == prev.push(spec_mod_order()[n - 1]));
            if cur.contains(a) {
                let j = choose|j: int| 0 <= j < cur.len() && cur[j] == a;
                if j < prev.len() {
                    assert(prev[j] == a);
                }
            }
            if exists|i: int| 0 <= i < n && spec_mod_selected(mods, i) && #[trigger] spec_mod_order()[i] == a {
                let i = choose|i: int| 0 <= i < n && spec_mod_selected(mods, i) && #[trigger] spec_mod_order()[i] == a;
                if i == n - 1 {
                    assert(cur[prev.len() as int] == a);
                } else {
                    let j = choose|j: int| 0 <= j < prev.len() && prev[j] == a;
                    assert(cur[j] == a);
                }
            }
        }
    }
}

/// Whether acronym `a` is reported for the bitfield `mods`.
proof fn lemma_reported(mods: u32, k: int)
    requires
        0 <= k < NUM_ORDERED_MODS,
        mods != 0,
    ensures
        spec_mod_acronyms(mods).contains(spec_mod_order()[k]) <==> spec_mod_selected(mods, k),
{
    let o = spec_mod_order();
    lemma_selected_contains(mods, NUM_ORDERED_MODS as nat, o[k]);
    assert forall|i: int| 0 <= i < NUM_ORDERED_MODS && #[trigger] o[i] == o[k] implies i == k by {
        assert(o[i][0] == o[k][0] && o[i][1] == o[k][1]);
        assert(i == 0 || i == 1 || i == 2 || i == 3 || i == 4 || i == 5 || i == 6 || i == 7 || i == 8
            || i == 9 || i == 10 || i == 11 || i == 12 || i == 13);
        assert(k == 0 || k == 1 || k == 2 || k == 3 || k == 4 || k == 5 || k == 6 || k == 7 || k == 8
            || k == 9 || k == 10 || k == 11 || k == 12 || k == 13);
    }
}

/// Which acronyms a mods bitfield reports, bit by bit, as osu! numbers its
/// mods: `NF` 1, `EZ` 2, `TD` 4, `HD` 8, `HR` 16, `SD` 32, `DT` 64, `RX`
/// 128, `HT` 256, `NC` 512 (not reported alongside `DT`), `FL` 1024, `SO`
/// 4096, `AP` 8192, `PF` 16384 (not reported alongside `SD`). Each acronym
/// is reported exactly when its bit is set.
pub proof fn lemma_mod_bits(mods: u32)
    ensures
        spec_mod_acronyms(mods).contains(seq!['N', 'F']) <==> mods & 1 != 0,
        spec_mod_acronyms(mods).contains(seq!['E', 'Z']) <==> mods & 2 != 0,
        spec_mod_acronyms(mods).contains(seq!['T', 'D']) <==> mods & 4 != 0,
        spec_mod_acronyms(mods).contains(seq!['H', 'D']) <==> mods & 8 != 0,
        spec_mod_acronyms(mods).contains(seq!['H', 'R']) <==> mods & 16 != 0,
        spec_mod_acronyms(mods).contains(seq!['S', 'D']) <==> mods & 32 != 0,
        spec_mod_acronyms(mods).contains(seq!['D', 'T']) <==> mods & 64 != 0,
        spec_mod_acronyms(mods).contains(seq!['R', 'X']) <==> mods & 128 != 0,
        spec_mod_acronyms(mods).contains(seq!['H', 'T']) <==> mods & 256 != 0,
        spec_mod_acronyms(mods).contains(seq!['N', 'C']) <==> mods & 512 != 0 && mods & 64 == 0,
        spec_mod_acronyms(mods).contains(seq!['F', 'L']) <==> mods & 1024 != 0,
        spec_mod_acronyms(mods).contains(seq!['S', 'O']) <==> mods & 4096 != 0,
        spec_mod_acronyms(mods).contains(seq!['A', 'P']) <==> mods & 8192 != 0,
        spec_mod_acronyms(mods).contains(seq!['P', 'F']) <==> mods & 16384 != 0 && mods & 32 == 0,
        forall|a: Seq<char>| #[trigger] spec_mod_acronyms(mods).contains(a) ==> a == seq!['N', 'F'] || a == seq!['E', 'Z']
            || a == seq!['T', 'D'] || a == seq!['H', 'D'] || a == seq!['H', 'R'] || a == seq!['S', 'D']
            || a == seq!['D', 'T'] || a == seq!['R', 'X'] || a == seq!['H', 'T'] || a == seq!['N', 'C']
            || a == seq!['F', 'L'] || a == seq!['S', 'O'] || a == seq!['A', 'P'] || a == seq!['P', 'F'],
{
    let o = spec_mod_order();
    if mods == 0 {
        assert(mods & 1 == 0 && mods & 2 == 0 && mods & 4 == 0 && mods & 8 == 0 && mods & 16 == 0
            && mods & 32 == 0 && mods & 64 == 0 && mods & 128 == 0 && mods & 256 == 0 && mods & 512 == 0
            && mods & 1024 == 0 && mods & 4096 == 0 && mods & 8192 == 0 && mods & 16384 == 0) by (bit_vector)
            requires
                mods == 0,
        ;
    } else {
        lemma_reported(mods, 0);
        lemma_reported(mods, 1);
        lemma_reported(mods, 2);
        lemma_reported(mods, 3);
        lemma_reported(mods, 4);
        lemma_reported(mods, 5);
        lemma_reported(mods, 6);
        lemma_reported(mods, 7);
        lemma_reported(mods, 8);
        lemma_reported(mods, 9);
        lemma_reported(mods, 10);
        lemma_reported(mods, 11);
        lemma_reported(mods, 12);
        lemma_reported(mods, 13);
        assert(o[0] == seq!['E', 'Z']);
        assert(o[1] == seq!['N', 'F']);
        assert(o[2] == seq!['H', 'T']);
        assert(o[3] == seq!['H', 'R']);
        assert(o[4] == seq!['S', 'D']);
        assert(o[5] == seq!['P', 'F']);
        assert(o[6] == seq!['D', 'T']);
        assert(o[7] == seq!['N', 'C']);
        assert(o[8] == seq!['H', 'D']);
        assert(o[9] == seq!['F', 'L']);
        assert(o[10] == seq!['R', 'X']);
        assert(o[11] == seq!['A', 'P']);
        assert(o[12] == seq!['S', 'O']);
        assert(o[13] == seq!['T', 'D']);
        assert forall|a: Seq<char>| #[trigger] spec_mod_acronyms(mods).contains(a) implies a == seq!['N', 'F']
            || a == seq!['E', 'Z'] || a == seq!['T', 'D'] || a == seq!['H', 'D'] || a == seq!['H', 'R']
            || a == seq!['S', 'D'] || a == seq!['D', 'T'] || a == seq!['R', 'X'] || a == seq!['H', 'T']
            || a == seq!['N', 'C'] || a == seq!['F', 'L'] || a == seq!['S', 'O'] || a == seq!['A', 'P']
            || a == seq!['P', 'F'] by {
            lemma_selected_contains(mods, NUM_ORDERED_MODS as nat, a);
            let i = choose|i: int| 0 <= i < NUM_ORDERED_MODS && spec_mod_selected(mods, i) && #[trigger] o[i] == a;
            assert(i == 0 || i == 1 || i == 2 || i == 3 || i == 4 || i == 5 || i == 6 || i == 7 || i == 8
                || i == 9 || i == 10 || i == 11 || i == 12 || i == 13);
        }
    }
}

} // verus!
