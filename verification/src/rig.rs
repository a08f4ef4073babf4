//! Fixture map and small output helpers for the EW3 rig.
//!
//! The rig has four columns of eight grid lights and twenty tubes; the
//! map assigns each fixture name its output channel.  The graph helpers
//! render levels and fader positions as block glyphs for the terminal
//! display, and the device message packs sixteen channel values into one
//! register-write payload.

use vstd::prelude::*;
use vstd::string::StringExecFns;

use crate::assoc::keys_unique;
use crate::fixed::{div_fixed, div_trunc, lemma_div_trunc_bound, SCALE};

verus! {

/// The decimal digit character for `d` in `0..=9`.
pub open spec fn digit_char(d: int) -> char {
    if d == 0 {
        '0'
    } else if d == 1 {
        '1'
    } else if d == 2 {
        '2'
    } else if d == 3 {
        '3'
    } else if d == 4 {
        '4'
    } else if d == 5 {
        '5'
    } else if d == 6 {
        '6'
    } else if d == 7 {
        '7'
    } else if d == 8 {
        '8'
    } else {
        '9'
    }
}

/// The name of the grid light in column `col` at level `l`.
pub open spec fn grid_name(col: int, l: int) -> Seq<char> {
    seq!['C', digit_char(col + 1), 'L', digit_char(l)]
}

/// The name of tube `t`.
pub open spec fn tube_name(t: int) -> Seq<char> {
    if t < 10 {
        seq!['T', digit_char(t)]
    } else {
        seq!['T', digit_char(t / 10), digit_char(t % 10)]
    }
}

/// The decimal digit string for `d` in `0..=9`.
fn digit_str(d: usize) -> (r: &'static str)
    requires
        d < 10,
    ensures
        r@ =~= seq![digit_char(d as int)],
{
    proof {
        reveal_strlit("0");
        reveal_strlit("1");
        reveal_strlit("2");
        reveal_strlit("3");
        reveal_strlit("4");
        reveal_strlit("5");
        reveal_strlit("6");
        reveal_strlit("7");
        reveal_strlit("8");
        reveal_strlit("9");
    }
    match d {
        0 => "0",
        1 => "1",
        2 => "2",
        3 => "3",
        4 => "4",
        5 => "5",
        6 => "6",
        7 => "7",
        8 => "8",
        _ => "9",
    }
}

/// The fixture-name-to-channel map of the EW3 rig: four columns of eight
/// grid lights on channels `0..32`, twenty tubes on channels `32..52`.
#[allow(non_snake_case)]
#[verifier::loop_isolation(false)]
#[verifier::rlimit(100)]
pub fn EW3_LIGHT_MAP() -> (r: Vec<(String, u32)>)
    ensures
        r@.len() == 52,
        forall|col: int, l: int|
            0 <= col < 4 && 0 <= l < 8 ==> {
                &&& (#[trigger] r@[col * 8 + l]).0@ == grid_name(col, l)
                &&& r@[col * 8 + l].1 == col * 8 + l
            },
        forall|t: int|
            0 <= t < 20 ==> {
                &&& (#[trigger] r@[32 + t]).0@ == tube_name(t)
                &&& r@[32 + t].1 == 32 + t
            },
        forall|i: int| 0 <= i < r@.len() ==> (#[trigger] r@[i]).1 == i,
        keys_unique(r@),
{
    proof {
        reveal_strlit("C");
        reveal_strlit("L");
        reveal_strlit("T");
    }
    let mut map: Vec<(String, u32)> = Vec::new();
    let mut col: usize = 0;
    while col < 4
        invariant
            0 <= col <= 4,
            map@.len() == col * 8,
            forall|c: int, l: int|
                0 <= c < col && 0 <= l < 8 ==> {
                    &&& (#[trigger] map@[c * 8 + l]).0@ == grid_name(c, l)
                    &&& map@[c * 8 + l].1 == c * 8 + l
                },
        decreases 4 - col,
    {
        let mut l: usize = 0;
        while l < 8
            invariant
                0 <= col < 4,
                0 <= l <= 8,
                map@.len() == col * 8 + l,
                forall|c: int, ll: int|
                    0 <= c < col && 0 <= ll < 8 ==> {
                        &&& (#[trigger] map@[c * 8 + ll]).0@ == grid_name(c, ll)
                        &&& map@[c * 8 + ll].1 == c * 8 + ll
                    },
                forall|ll: int|
                    0 <= ll < l ==> {
                        &&& (#[trigger] map@[col * 8 + ll]).0@ == grid_name(col as int, ll)
                        &&& map@[col * 8 + ll].1 == col * 8 + ll
                    },
        decreases 8 - l,
        {
            let mut name: String = String::from_str("C");
            name.append(digit_str(col + 1));
            name.append("L");
            name.append(digit_str(l));
            proof {
                assert(name@ =~= grid_name(col as int, l as int));
            }
            map.push((name, (col * 8 + l) as u32));
            l += 1;
        }
        col += 1;
    }
    let mut t: usize = 0;
    while t < 20
        invariant
            0 <= t <= 20,
            map@.len() == 32 + t,
            forall|c: int, ll: int|
                0 <= c < 4 && 0 <= ll < 8 ==> {
                    &&& (#[trigger] map@[c * 8 + ll]).0@ == grid_name(c, ll)
                    &&& map@[c * 8 + ll].1 == c * 8 + ll
                },
            forall|tt: int|
                0 <= tt < t ==> {
                    &&& (#[trigger] map@[32 + tt]).0@ == tube_name(tt)
                    &&& map@[32 + tt].1 == 32 + tt
                },
        decreases 20 - t,
    {
        let mut name: String = String::from_str("T");
        if t < 10 {
            name.append(digit_str(t));
        } else {
            name.append(digit_str(t / 10));
            name.append(digit_str(t % 10));
        }
        proof {
            assert(name@ =~= tube_name(t as int));
        }
        map.push((name, (32 + t) as u32));
        t += 1;
    }
    proof {
        assert forall|i: int| 0 <= i < map@.len() implies (#[trigger] map@[i]).1 == i by {
            if i < 32 {
                let c = i / 8;
                let l = i % 8;
                assert(map@[c * 8 + l].1 == c * 8 + l);
            } else {
                assert(map@[32 + (i - 32)].1 == i);
            }
        }
        assert forall|k1: int, k2: int|
            0 <= k1 < k2 < map@.len() implies (#[trigger] map@[k1]).0@ != (
        #[trigger] map@[k2]).0@ by {
            lemma_rig_names(map@, k1);
            lemma_rig_names(map@, k2);
            lemma_rig_names_distinct(k1, k2);
        }
    }
    map
}

/// Two digits with the same character are the same digit.
proof fn lemma_digit_inj(a: int, b: int)
    requires
        0 <= a <= 9,
        0 <= b <= 9,
        digit_char(a) == digit_char(b),
    ensures
        a == b,
{
}

/// Distinct positions of the rig map carry distinct names.
proof fn lemma_rig_names_distinct(k1: int, k2: int)
    requires
        0 <= k1 < k2 < 52,
    ensures
        rig_name_at(k1) != rig_name_at(k2),
{
    if rig_name_at(k1) == rig_name_at(k2) {
        if k1 < 32 && k2 < 32 {
            assert(rig_name_at(k1)[1] == rig_name_at(k2)[1]);
            assert(rig_name_at(k1)[3] == rig_name_at(k2)[3]);
            lemma_digit_inj(k1 / 8 + 1, k2 / 8 + 1);
            lemma_digit_inj(k1 % 8, k2 % 8);
            assert(k1 == 8 * (k1 / 8) + k1 % 8);
            assert(k2 == 8 * (k2 / 8) + k2 % 8);
            assert(false);
        } else if k1 < 32 && k2 >= 32 {
            assert(rig_name_at(k1)[0] == 'C');
            assert(rig_name_at(k2)[0] == 'T');
            assert(false);
        } else {
            let t1 = k1 - 32;
            let t2 = k2 - 32;
            if t1 < 10 && t2 < 10 {
                assert(rig_name_at(k1)[1] == rig_name_at(k2)[1]);
                lemma_digit_inj(t1, t2);
                assert(false);
            } else if t1 < 10 && t2 >= 10 {
                assert(rig_name_at(k1).len() == 2);
                assert(rig_name_at(k2).len() == 3);
                assert(false);
            } else {
                assert(t1 >= 10 && t2 >= 10);
                assert(rig_name_at(k1)[2] == rig_name_at(k2)[2]);
                lemma_digit_inj(t1 % 10, t2 % 10);
                assert(t1 == 10 * (t1 / 10) + t1 % 10);
                assert(t2 == 10 * (t2 / 10) + t2 % 10);
                assert(t1 / 10 == 1 && t2 / 10 == 1);
                assert(false);
            }
        }
    }
}

/// Each entry's name in the finished map, by position.
spec fn rig_name_at(i: int) -> Seq<char> {
    if i < 32 {
        grid_name(i / 8, i % 8)
    } else {
        tube_name(i - 32)
    }
}

/// Helper: reads an entry's name off the grid and tube characterization.
proof fn lemma_rig_names(map: Seq<(String, u32)>, i: int)
    requires
        0 <= i < 52,
        map.len() == 52,
        forall|c: int, ll: int|
            0 <= c < 4 && 0 <= ll < 8 ==> (#[trigger] map[c * 8 + ll]).0@ == grid_name(c, ll),
        forall|tt: int| 0 <= tt < 20 ==> (#[trigger] map[32 + tt]).0@ == tube_name(tt),
    ensures
        map[i].0@ == rig_name_at(i),
{
    if i < 32 {
        let c = i / 8;
        let l = i % 8;
        assert(map[c * 8 + l].0@ == grid_name(c, l));
    } else {
        assert(map[32 + (i - 32)].0@ == tube_name(i - 32));
    }
}

/// The block glyph for a level index in `0..=8`, from blank to full.
pub open spec fn spec_glyph(i: int) -> char {
    if i == 0 {
        ' '
    } else if i == 1 {
        '\u{2581}'
    } else if i == 2 {
        '\u{2582}'
    } else if i == 3 {
        '\u{2583}'
    } else if i == 4 {
        '\u{2584}'
    } else if i == 5 {
        '\u{2585}'
    } else if i == 6 {
        '\u{2586}'
    } else if i == 7 {
        '\u{2587}'
    } else {
        '\u{2588}'
    }
}

/// The block glyph for a level index in `0..=8`.
fn glyph(i: usize) -> (c: char)
    requires
        i <= 8,
    ensures
        c == spec_glyph(i as int),
{
    match i {
        0 => ' ',
        1 => '\u{2581}',
        2 => '\u{2582}',
        3 => '\u{2583}',
        4 => '\u{2584}',
        5 => '\u{2585}',
        6 => '\u{2586}',
        7 => '\u{2587}',
        _ => '\u{2588}',
    }
}

/// The one-character string of the block glyph for a level index.
fn glyph_str(i: usize) -> (r: &'static str)
    requires
        i <= 8,
    ensures
        r@ =~= seq![spec_glyph(i as int)],
{
    proof {
        reveal_strlit(" ");
        reveal_strlit("\u{2581}");
        reveal_strlit("\u{2582}");
        reveal_strlit("\u{2583}");
        reveal_strlit("\u{2584}");
        reveal_strlit("\u{2585}");
        reveal_strlit("\u{2586}");
        reveal_strlit("\u{2587}");
        reveal_strlit("\u{2588}");
    }
    match i {
        0 => " ",
        1 => "\u{2581}",
        2 => "\u{2582}",
        3 => "\u{2583}",
        4 => "\u{2584}",
        5 => "\u{2585}",
        6 => "\u{2586}",
        7 => "\u{2587}",
        _ => "\u{2588}",
    }
}

/// Renders eight-bit levels as one block glyph per channel.
pub fn levels_to_graph(levels: &Vec<u8>) -> (r: String)
    ensures
        r@.len() == levels@.len(),
        forall|i: int|
            0 <= i < levels@.len() ==> r@[i] == spec_glyph((#[trigger] levels@[i]) as int / 32),
{
    let mut graph: String = String::new();
    let n: usize = levels.len();
    let mut i: usize = 0;
    while i < n
        invariant
            n == levels@.len(),
            0 <= i <= n,
            graph@.len() == i,
            forall|k: int|
                0 <= k < i ==> graph@[k] == spec_glyph((#[trigger] levels@[k]) as int / 32),
        decreases n - i,
    {
        let level: u8 = levels[i];
        graph.append(glyph_str((level / 32) as usize));
        i += 1;
    }
    graph
}

/// The block glyph showing a fader's position, from blank at zero travel
/// to the full block at full travel.
pub fn fader_to_char(fader: i64) -> (c: char)
    requires
        0 <= fader <= SCALE,
    ensures
        c == spec_glyph(div_trunc(fader as int * 8, SCALE as int)),
{
    proof {
        lemma_div_trunc_bound(fader as int * 8, SCALE as int, 8000);
        vstd::arithmetic::div_mod::lemma_div_pos_is_pos(fader as int * 8, SCALE as int);
    }
    let idx: i64 = div_fixed(fader * 8, SCALE);
    glyph(idx as usize)
}

/// Packs sixteen channel values into one register-write payload for the
/// PWM driver: a register address byte, then per channel two zero bytes
/// and the value's low and high bytes.
#[verifier::loop_isolation(false)]
pub fn set_values_message(values: &Vec<u16>) -> (r: Vec<u8>)
    requires
        values@.len() == 16,
    ensures
        r@.len() == 65,
        r@[0] == 6,
        forall|i: int|
            0 <= i < 16 ==> {
                &&& (#[trigger] r@[4 * i + 1]) == 0
                &&& r@[4 * i + 2] == 0
                &&& r@[4 * i + 3] == values@[i] as int % 256
                &&& r@[4 * i + 4] == values@[i] as int / 256
            },
{
    let mut data: Vec<u8> = Vec::new();
    data.push(0x06);
    let mut i: usize = 0;
    while i < 16
        invariant
            values@.len() == 16,
            0 <= i <= 16,
            data@.len() == 4 * i + 1,
            data@[0] == 6,
            forall|k: int|
                0 <= k < i ==> {
                    &&& (#[trigger] data@[4 * k + 1]) == 0
                    &&& data@[4 * k + 2] == 0
                    &&& data@[4 * k + 3] == values@[k] as int % 256
                    &&& data@[4 * k + 4] == values@[k] as int / 256
                },
        decreases 16 - i,
    {
        let value: u16 = values[i];
        data.push(0);
        data.push(0);
        data.push((value % 256) as u8);
        data.push((value / 256) as u8);
        proof {
            assert(value % 256 < 256);
            assert(value / 256 < 256);
            assert(data@[4 * (i as int) + 1] == 0);
            assert(data@[4 * (i as int) + 2] == 0);
            assert(data@[4 * (i as int) + 3] == values@[i as int] as int % 256);
            assert(data@[4 * (i as int) + 4] == values@[i as int] as int / 256);
        }
        i += 1;
    }
    data
}

} // verus!
