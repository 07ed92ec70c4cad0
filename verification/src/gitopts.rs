use vstd::prelude::*;

use crate::chars::{chars_string, dec_digits, spec_trim, str_chars, trim_chars, trim_string};
use crate::settings::SettingsValue;

verus! {

// ---------------------------------------------------------------------------
// Expanding caller-supplied options into command-line arguments.
// ---------------------------------------------------------------------------

/// The decimal rendering of a signed number.
pub open spec fn spec_i64_str(n: int) -> Seq<char> {
    if n >= 0 {
        dec_digits(n)
    } else {
        seq!['-'] + dec_digits(-n)
    }
}

fn push_dec_u64(n: u64, out: &mut Vec<char>)
    ensures
        final(out)@ == old(out)@ + dec_digits(n as int),
    decreases n,
{
    if n >= 10 {
        push_dec_u64(n / 10, out);
    }
    let d: u8 = (n % 10) as u8 + 48;
    out.push(d as char);
    proof {
        assert(out@ =~= old(out)@ + dec_digits(n as int));
    }
}

/// Render a signed number in decimal.
pub fn i64_string(n: i64) -> (r: String)
    ensures
        r@ == spec_i64_str(n as int),
{
    let mut v: Vec<char> = Vec::new();
    if n < 0 {
        v.push('-');
        let mag: u64 = ((-(n + 1)) as u64) + 1;
        proof {
            assert(mag == -(n as int));
        }
        push_dec_u64(mag, &mut v);
        proof {
            assert(v@ =~= seq!['-'] + dec_digits(mag as int));
        }
    } else {
        push_dec_u64(n as u64, &mut v);
        proof {
            assert(v@ =~= dec_digits(n as int));
        }
    }
    chars_string(&v)
}

/// The escape of one character inside a JSON string.
pub open spec fn json_escape_char(c: char) -> Seq<char> {
    if c == '"' {
        seq!['\\', '"']
    } else if c == '\\' {
        seq!['\\', '\\']
    } else if c == '\u{8}' {
        seq!['\\', 'b']
    } else if c == '\u{c}' {
        seq!['\\', 'f']
    } else if c == '\n' {
        seq!['\\', 'n']
    } else if c == '\r' {
        seq!['\\', 'r']
    } else if c == '\t' {
        seq!['\\', 't']
    } else if (c as u32) < 0x20 {
        seq!['\\', 'u', '0', '0', hex_digit((c as u32 / 16) as int), hex_digit((c as u32 % 16) as int)]
    } else {
        seq![c]
    }
}

pub open spec fn hex_digit(d: int) -> char {
    if d < 10 {
        (48 + d) as u8 as char
    } else {
        (87 + d) as u8 as char
    }
}

/// A string's characters with JSON escaping applied.
pub open spec fn json_escaped(s: Seq<char>) -> Seq<char>
    decreases s.len(),
{
    if s.len() == 0 {
        Seq::<char>::empty()
    } else {
        json_escape_char(s[0]) + json_escaped(s.drop_first())
    }
}

/// The compact JSON rendering of a settings value.
pub open spec fn json_text(v: SettingsValue) -> Seq<char>
    decreases v,
{
    match v {
        SettingsValue::Null => "null"@,
        SettingsValue::Bool(b) => if b {
            "true"@
        } else {
            "false"@
        },
        SettingsValue::Num(n) => spec_i64_str(n as int),
        SettingsValue::Str(s) => seq!['"'] + json_escaped(s@) + seq!['"'],
        SettingsValue::Arr(items) => seq!['['] + json_items(items@) + seq![']'],
        SettingsValue::Obj(entries) => seq!['{'] + json_entries(entries@) + seq!['}'],
    }
}

pub open spec fn json_items(items: Seq<SettingsValue>) -> Seq<char>
    decreases items,
{
    if items.len() == 0 {
        Seq::<char>::empty()
    } else if items.len() == 1 {
        json_text(items[0])
    } else {
        json_text(items[0]) + seq![','] + json_items(items.drop_first())
    }
}

pub open spec fn json_entries(entries: Seq<(String, SettingsValue)>) -> Seq<char>
    decreases entries,
{
    if entries.len() == 0 {
        Seq::<char>::empty()
    } else {
        let head = seq!['"'] + json_escaped(entries[0].0@) + seq!['"', ':'] + json_text(
            entries[0].1,
        );
        if entries.len() == 1 {
            head
        } else {
            head + seq![','] + json_entries(entries.drop_first())
        }
    }
}

/// Append one character's JSON escape.
fn push_escaped_char(out: &mut Vec<char>, c: char)
    ensures
        final(out)@ == old(out)@ + json_escape_char(c),
{
    if c == '"' {
        out.push('\\');
        out.push('"');
    } else if c == '\\' {
        out.push('\\');
        out.push('\\');
    } else if c == '\u{8}' {
        out.push('\\');
        out.push('b');
    } else if c == '\u{c}' {
        out.push('\\');
        out.push('f');
    } else if c == '\n' {
        out.push('\\');
        out.push('n');
    } else if c == '\r' {
        out.push('\\');
        out.push('r');
    } else if c == '\t' {
        out.push('\\');
        out.push('t');
    } else if (c as u32) < 0x20 {
        out.push('\\');
        out.push('u');
        out.push('0');
        out.push('0');
        let v = c as u32;
        let hi: u32 = v / 16;
        let lo: u32 = v % 16;
        out.push(
            if hi < 10 {
                (48 + hi as u8) as char
            } else {
                (87 + hi as u8) as char
            },
        );
        out.push(
            if lo < 10 {
                (48 + lo as u8) as char
            } else {
                (87 + lo as u8) as char
            },
        );
    } else {
        out.push(c);
    }
    proof {
        assert(out@ =~= old(out)@ + json_escape_char(c));
    }
}

/// Append a string's characters, JSON-escaped.
#[verifier::loop_isolation(false)]
fn push_escaped(out: &mut Vec<char>, s: &String)
    ensures
        final(out)@ == old(out)@ + json_escaped(s@),
{
    let cs = str_chars(s.as_str());
    let n = cs.len();
    let mut i: usize = 0;
    while i < n
        invariant
            i <= n,
            out@ == old(out)@ + json_escaped(cs@.subrange(0, i as int)),
        decreases n - i,
    {
        push_escaped_char(out, cs[i]);
        i += 1;
        proof {
            lemma_json_escaped_snoc(cs@.subrange(0, i as int));
            assert(cs@.subrange(0, i as int).drop_last() =~= cs@.subrange(0, i - 1));
            assert(out@ =~= old(out)@ + json_escaped(cs@.subrange(0, i as int)));
        }
    }
    proof {
        assert(cs@.subrange(0, n as int) =~= cs@);
    }
}

/// Escaping a sequence ending in one more character.
proof fn lemma_json_escaped_snoc(s: Seq<char>)
    requires
        s.len() > 0,
    ensures
        json_escaped(s) == json_escaped(s.drop_last()) + json_escape_char(s.last()),
    decreases s.len(),
{
    if s.len() == 1 {
        reveal_with_fuel(json_escaped, 3);
        assert(s.drop_last().len() == 0);
        assert(s.drop_first().len() == 0);
        assert(json_escaped(s) =~= json_escape_char(s[0]));
        assert(json_escaped(s.drop_last()) + json_escape_char(s.last()) =~= json_escape_char(
            s[0],
        ));
    } else {
        lemma_json_escaped_snoc(s.drop_first());
        assert(s.drop_first().drop_last() =~= s.drop_last().drop_first());
        assert(s.drop_first().last() == s.last());
        assert(json_escaped(s) =~= json_escape_char(s[0]) + json_escaped(s.drop_first()));
        assert(s.drop_last()[0] == s[0]);
        assert(json_escaped(s.drop_last()) =~= json_escape_char(s[0]) + json_escaped(
            s.drop_last().drop_first(),
        ));
        assert(json_escaped(s) =~= json_escaped(s.drop_last()) + json_escape_char(s.last()));
    }
}

/// Write a settings value as compact JSON.
#[verifier::loop_isolation(false)]
#[verifier::rlimit(100)]
pub fn write_json(v: &SettingsValue) -> (r: String)
    ensures
        r@ == json_text(*v),
    decreases *v,
{
    let mut out: Vec<char> = Vec::new();
    match v {
        SettingsValue::Null => {
            proof {
                reveal_strlit("null");
            }
            return String::from_str("null");
        },
        SettingsValue::Bool(b) => {
            return if *b {
                String::from_str("true")
            } else {
                String::from_str("false")
            };
        },
        SettingsValue::Num(n) => {
            return i64_string(*n);
        },
        SettingsValue::Str(s) => {
            out.push('"');
            proof {
                assert(out@ =~= seq!['"']);
            }
            push_escaped(&mut out, s);
            out.push('"');
            proof {
                assert(out@ =~= seq!['"'] + json_escaped(s@) + seq!['"']);
            }
            return chars_string(&out);
        },
        SettingsValue::Arr(items) => {
            out.push('[');
            let n = items.len();
            let mut i: usize = 0;
            while i < n
                invariant
                    i <= n == items@.len(),
                    v matches SettingsValue::Arr(its) && its@ == items@,
                    out@ == seq!['['] + json_items(items@.subrange(0, i as int)) + if 0 < i
                        < n {
                        seq![',']
                    } else {
                        Seq::<char>::empty()
                    },
                decreases n - i,
            {
                proof {
                    assert(decreases_to!(*v => v->Arr_0));
                    assert(decreases_to!(v->Arr_0 => v->Arr_0@));
                    assert(decreases_to!(v->Arr_0@ => v->Arr_0@[i as int]));
                }
                let piece = write_json(&items[i]);
                let pcs = str_chars(piece.as_str());
                let mut k: usize = 0;
                while k < pcs.len()
                    invariant
                        k <= pcs@.len(),
                        pcs@ == json_text(items@[i as int]),
                        i < n == items@.len(),
                        out@ == seq!['['] + json_items(items@.subrange(0, i as int)) + (if 0 < i
                            < n {
                            seq![',']
                        } else {
                            Seq::<char>::empty()
                        }) + pcs@.subrange(0, k as int),
                    decreases pcs@.len() - k,
                {
                    out.push(pcs[k]);
                    k += 1;
                    proof {
                        assert(pcs@.subrange(0, k as int) =~= pcs@.subrange(0, k - 1).push(
                            pcs@[k - 1],
                        ));
                        assert(out@ =~= seq!['['] + json_items(items@.subrange(0, i as int)) + (
                        if 0 < i < n {
                            seq![',']
                        } else {
                            Seq::<char>::empty()
                        }) + pcs@.subrange(0, k as int));
                    }
                }
                proof {
                    assert(pcs@.subrange(0, pcs@.len() as int) =~= pcs@);
                    lemma_json_items_snoc(items@.subrange(0, i + 1));
                    assert(items@.subrange(0, i + 1).drop_last() =~= items@.subrange(0, i as int));
                }
                i += 1;
                if i < n {
                    out.push(',');
                }
                proof {
                    assert(out@ =~= seq!['['] + json_items(items@.subrange(0, i as int)) + if 0
                        < i < n {
                        seq![',']
                    } else {
                        Seq::<char>::empty()
                    });
                }
            }
            out.push(']');
            proof {
                assert(items@.subrange(0, n as int) =~= items@);
                assert(out@ =~= seq!['['] + json_items(items@) + seq![']']);
            }
            return chars_string(&out);
        },
        SettingsValue::Obj(entries) => {
            out.push('{');
            let n = entries.len();
            let mut i: usize = 0;
            while i < n
                invariant
                    i <= n == entries@.len(),
                    v matches SettingsValue::Obj(es) && es@ == entries@,
                    out@ == seq!['{'] + json_entries(entries@.subrange(0, i as int)) + if 0 < i
                        < n {
                        seq![',']
                    } else {
                        Seq::<char>::empty()
                    },
                decreases n - i,
            {
                out.push('"');
                push_escaped(&mut out, &entries[i].0);
                out.push('"');
                out.push(':');
                proof {
                    assert(decreases_to!(*v => v->Obj_0));
                    assert(decreases_to!(v->Obj_0 => v->Obj_0@));
                    assert(decreases_to!(v->Obj_0@ => v->Obj_0@[i as int]));
                    assert(decreases_to!(v->Obj_0@[i as int] => v->Obj_0@[i as int].1));
                }
                let piece = write_json(&entries[i].1);
                let pcs = str_chars(piece.as_str());
                let ghost head_done = seq!['{'] + json_entries(entries@.subrange(0, i as int))
                    + (if 0 < i < n {
                    seq![',']
                } else {
                    Seq::<char>::empty()
                }) + seq!['"'] + json_escaped(entries@[i as int].0@) + seq!['"', ':'];
                proof {
                    assert(out@ =~= head_done);
                }
                let mut k: usize = 0;
                while k < pcs.len()
                    invariant
                        k <= pcs@.len(),
                        pcs@ == json_text(entries@[i as int].1),
                        i < n == entries@.len(),
                        out@ == head_done + pcs@.subrange(0, k as int),
                    decreases pcs@.len() - k,
                {
                    out.push(pcs[k]);
                    k += 1;
                    proof {
                        assert(pcs@.subrange(0, k as int) =~= pcs@.subrange(0, k - 1).push(
                            pcs@[k - 1],
                        ));
                        assert(out@ =~= head_done + pcs@.subrange(0, k as int));
                    }
                }
                proof {
                    assert(pcs@.subrange(0, pcs@.len() as int) =~= pcs@);
                    lemma_json_entries_snoc(entries@.subrange(0, i + 1));
                    assert(entries@.subrange(0, i + 1).drop_last() =~= entries@.subrange(
                        0,
                        i as int,
                    ));
                }
                i += 1;
                if i < n {
                    out.push(',');
                }
                proof {
                    assert(out@ =~= seq!['{'] + json_entries(entries@.subrange(0, i as int))
                        + if 0 < i < n {
                        seq![',']
                    } else {
                        Seq::<char>::empty()
                    });
                }
            }
            out.push('}');
            proof {
                assert(entries@.subrange(0, n as int) =~= entries@);
                assert(out@ =~= seq!['{'] + json_entries(entries@) + seq!['}']);
            }
            return chars_string(&out);
        },
    }
}

/// A rendered item list extended by one more item.
proof fn lemma_json_items_snoc(items: Seq<SettingsValue>)
    requires
        items.len() > 0,
    ensures
        json_items(items) == if items.len() == 1 {
            json_text(items[0])
        } else {
            json_items(items.drop_last()) + seq![','] + json_text(items.last())
        },
    decreases items.len(),
{
    if items.len() > 1 {
        lemma_json_items_snoc(items.drop_first());
        assert(items.drop_first().drop_last() =~= items.drop_last().drop_first());
        assert(items.drop_first().last() == items.last());
        if items.len() == 2 {
            assert(items.drop_last().len() == 1);
            assert(items.drop_last()[0] == items[0]);
            assert(json_items(items) =~= json_items(items.drop_last()) + seq![','] + json_text(
                items.last(),
            ));
        } else {
            assert(items.drop_last().len() >= 2);
            assert(items.drop_last()[0] == items[0]);
            assert(json_items(items) =~= json_items(items.drop_last()) + seq![','] + json_text(
                items.last(),
            ));
        }
    }
}

/// A rendered entry list extended by one more entry.
proof fn lemma_json_entries_snoc(entries: Seq<(String, SettingsValue)>)
    requires
        entries.len() > 0,
    ensures
        json_entries(entries) == if entries.len() == 1 {
            seq!['"'] + json_escaped(entries[0].0@) + seq!['"', ':'] + json_text(entries[0].1)
        } else {
            json_entries(entries.drop_last()) + seq![','] + (seq!['"'] + json_escaped(
                entries.last().0@,
            ) + seq!['"', ':'] + json_text(entries.last().1))
        },
    decreases entries.len(),
{
    if entries.len() > 1 {
        lemma_json_entries_snoc(entries.drop_first());
        assert(entries.drop_first().drop_last() =~= entries.drop_last().drop_first());
        assert(entries.drop_first().last() == entries.last());
        assert(entries.drop_last()[0] == entries[0]);
        if entries.len() == 2 {
            assert(json_entries(entries) =~= json_entries(entries.drop_last()) + seq![','] + (
            seq!['"'] + json_escaped(entries.last().0@) + seq!['"', ':'] + json_text(
                entries.last().1,
            )));
        } else {
            assert(json_entries(entries) =~= json_entries(entries.drop_last()) + seq![','] + (
            seq!['"'] + json_escaped(entries.last().0@) + seq!['"', ':'] + json_text(
                entries.last().1,
            )));
        }
    }
}

/// The arguments a bare option value contributes: numbers and nonempty
/// trimmed strings as single arguments, arrays flattened, objects expanded
/// as flags; null and both booleans contribute nothing.
pub open spec fn spec_git_option(v: SettingsValue) -> Seq<Seq<char>>
    decreases v,
{
    match v {
        SettingsValue::Null => Seq::<Seq<char>>::empty(),
        SettingsValue::Bool(_) => Seq::<Seq<char>>::empty(),
        SettingsValue::Num(n) => seq![spec_i64_str(n as int)],
        SettingsValue::Str(s) => if spec_trim(s@).len() > 0 {
            seq![spec_trim(s@)]
        } else {
            Seq::<Seq<char>>::empty()
        },
        SettingsValue::Arr(items) => spec_git_option_seq(items@),
        SettingsValue::Obj(entries) => spec_git_option_map(entries@),
    }
}

pub open spec fn spec_git_option_seq(items: Seq<SettingsValue>) -> Seq<Seq<char>>
    decreases items,
{
    if items.len() == 0 {
        Seq::<Seq<char>>::empty()
    } else {
        spec_git_option(items[0]) + spec_git_option_seq(items.drop_first())
    }
}

/// The arguments one flagged entry contributes: null and true give the bare
/// flag, false nothing, strings and numbers a `flag=value` argument, an
/// empty array the bare flag, a nonempty array one contribution per item,
/// and a nested object a `flag=` argument holding its JSON rendering.
pub open spec fn spec_map_entry(flag: Seq<char>, v: SettingsValue) -> Seq<Seq<char>>
    decreases v,
{
    match v {
        SettingsValue::Null => seq![flag],
        SettingsValue::Bool(b) => if b {
            seq![flag]
        } else {
            Seq::<Seq<char>>::empty()
        },
        SettingsValue::Str(text) => seq![flag + seq!['='] + text@],
        SettingsValue::Num(n) => seq![flag + seq!['='] + spec_i64_str(n as int)],
        SettingsValue::Arr(items) => if items@.len() == 0 {
            seq![flag]
        } else {
            spec_map_items(flag, items@)
        },
        SettingsValue::Obj(_) => seq![flag + seq!['='] + json_text(v)],
    }
}

pub open spec fn spec_map_items(flag: Seq<char>, items: Seq<SettingsValue>) -> Seq<Seq<char>>
    decreases items,
{
    if items.len() == 0 {
        Seq::<Seq<char>>::empty()
    } else {
        let head = match items[0] {
            SettingsValue::Null => seq![flag],
            SettingsValue::Bool(b) => if b {
                seq![flag]
            } else {
                Seq::<Seq<char>>::empty()
            },
            SettingsValue::Str(text) => seq![flag + seq!['='] + text@],
            SettingsValue::Num(n) => seq![flag + seq!['='] + spec_i64_str(n as int)],
            other => spec_git_option(other),
        };
        head + spec_map_items(flag, items.drop_first())
    }
}

pub open spec fn spec_git_option_map(entries: Seq<(String, SettingsValue)>) -> Seq<Seq<char>>
    decreases entries,
{
    if entries.len() == 0 {
        Seq::<Seq<char>>::empty()
    } else {
        let flag = spec_trim(entries[0].0@);
        let head = if flag.len() == 0 {
            Seq::<Seq<char>>::empty()
        } else {
            spec_map_entry(flag, entries[0].1)
        };
        head + spec_git_option_map(entries.drop_first())
    }
}

proof fn lemma_git_option_seq_snoc(items: Seq<SettingsValue>)
    requires
        items.len() > 0,
    ensures
        spec_git_option_seq(items) == spec_git_option_seq(items.drop_last()) + spec_git_option(
            items.last(),
        ),
    decreases items.len(),
{
    if items.len() == 1 {
        assert(spec_git_option_seq(items.drop_first()) =~= Seq::<Seq<char>>::empty());
        assert(spec_git_option_seq(items.drop_last()) =~= Seq::<Seq<char>>::empty());
        assert(spec_git_option_seq(items) =~= spec_git_option(items[0]));
        assert(spec_git_option_seq(items.drop_last()) + spec_git_option(items.last())
            =~= spec_git_option(items[0]));
    } else {
        lemma_git_option_seq_snoc(items.drop_first());
        assert(items.drop_first().drop_last() =~= items.drop_last().drop_first());
        assert(items.drop_first().last() == items.last());
        assert(items.drop_last()[0] == items[0]);
        assert(spec_git_option_seq(items) =~= spec_git_option_seq(items.drop_last())
            + spec_git_option(items.last()));
    }
}

proof fn lemma_map_items_snoc(flag: Seq<char>, items: Seq<SettingsValue>)
    requires
        items.len() > 0,
    ensures
        spec_map_items(flag, items) == spec_map_items(flag, items.drop_last()) + (
        match items.last() {
            SettingsValue::Null => seq![flag],
            SettingsValue::Bool(b) => if b {
                seq![flag]
            } else {
                Seq::<Seq<char>>::empty()
            },
            SettingsValue::Str(text) => seq![flag + seq!['='] + text@],
            SettingsValue::Num(n) => seq![flag + seq!['='] + spec_i64_str(n as int)],
            other => spec_git_option(other),
        }),
    decreases items.len(),
{
    if items.len() == 1 {
        assert(spec_map_items(flag, items.drop_first()) =~= Seq::<Seq<char>>::empty());
        assert(spec_map_items(flag, items.drop_last()) =~= Seq::<Seq<char>>::empty());
    } else {
        lemma_map_items_snoc(flag, items.drop_first());
        assert(items.drop_first().drop_last() =~= items.drop_last().drop_first());
        assert(items.drop_first().last() == items.last());
        assert(items.drop_last()[0] == items[0]);
    }
}

proof fn lemma_git_option_map_snoc(entries: Seq<(String, SettingsValue)>)
    requires
        entries.len() > 0,
    ensures
        spec_git_option_map(entries) == spec_git_option_map(entries.drop_last()) + ({
            let flag = spec_trim(entries.last().0@);
            if flag.len() == 0 {
                Seq::<Seq<char>>::empty()
            } else {
                spec_map_entry(flag, entries.last().1)
            }
        }),
    decreases entries.len(),
{
    if entries.len() == 1 {
        assert(spec_git_option_map(entries.drop_first()) =~= Seq::<Seq<char>>::empty());
        assert(spec_git_option_map(entries.drop_last()) =~= Seq::<Seq<char>>::empty());
    } else {
        lemma_git_option_map_snoc(entries.drop_first());
        assert(entries.drop_first().drop_last() =~= entries.drop_last().drop_first());
        assert(entries.drop_first().last() == entries.last());
        assert(entries.drop_last()[0] == entries[0]);
    }
}

/// Push one argument.
fn push_arg(args: &mut Vec<String>, arg: String)
    ensures
        final(args).deep_view() == old(args).deep_view().push(arg@),
{
    let ghost a = arg@;
    args.push(arg);
    proof {
        assert(args.deep_view() =~= old(args).deep_view().push(a));
    }
}

/// Push a `flag=value` argument.
fn push_flag_value(args: &mut Vec<String>, flag: &String, value: String)
    ensures
        final(args).deep_view() == old(args).deep_view().push(flag@ + seq!['='] + value@),
{
    let mut arg = flag.clone();
    proof {
        reveal_strlit("=");
        assert(("=")@ =~= seq!['=']);
    }
    arg.append("=");
    arg.append(value.as_str());
    push_arg(args, arg);
}

/// Expand one caller-supplied option value into command-line arguments.
#[verifier::loop_isolation(false)]
#[verifier::rlimit(100)]
pub fn append_git_option(args: &mut Vec<String>, value: &SettingsValue)
    ensures
        final(args).deep_view() == old(args).deep_view() + spec_git_option(*value),
    decreases *value,
{
    let ghost base = args.deep_view();
    match value {
        SettingsValue::Null => {
            proof {
                assert(args.deep_view() =~= base + spec_git_option(*value));
            }
        },
        SettingsValue::Bool(_) => {
            proof {
                assert(args.deep_view() =~= base + spec_git_option(*value));
            }
        },
        SettingsValue::Num(n) => {
            push_arg(args, i64_string(*n));
            proof {
                assert(args.deep_view() =~= base + spec_git_option(*value));
            }
        },
        SettingsValue::Str(s) => {
            let t = trim_string(s.as_str());
            if !t.as_str().is_empty() {
                push_arg(args, t);
            }
            proof {
                assert(args.deep_view() =~= base + spec_git_option(*value));
            }
        },
        SettingsValue::Arr(items) => {
            let n = items.len();
            let mut i: usize = 0;
            proof {
                assert(items@.subrange(0, 0) =~= Seq::<SettingsValue>::empty());
                assert(args.deep_view() =~= base + spec_git_option_seq(items@.subrange(0, 0)));
            }
            while i < n
                invariant
                    i <= n == items@.len(),
                    value matches SettingsValue::Arr(its) && its@ == items@,
                    args.deep_view() == base + spec_git_option_seq(items@.subrange(0, i as int)),
                decreases n - i,
            {
                proof {
                    assert(decreases_to!(*value => value->Arr_0));
                    assert(decreases_to!(value->Arr_0 => value->Arr_0@));
                    assert(decreases_to!(value->Arr_0@ => value->Arr_0@[i as int]));
                }
                append_git_option(args, &items[i]);
                i += 1;
                proof {
                    lemma_git_option_seq_snoc(items@.subrange(0, i as int));
                    assert(items@.subrange(0, i as int).drop_last() =~= items@.subrange(
                        0,
                        i - 1,
                    ));
                    assert(args.deep_view() =~= base + spec_git_option_seq(
                        items@.subrange(0, i as int),
                    ));
                }
            }
            proof {
                assert(items@.subrange(0, n as int) =~= items@);
            }
        },
        SettingsValue::Obj(entries) => {
            append_git_option_map(args, entries);
            proof {
                assert(args.deep_view() =~= base + spec_git_option(*value));
            }
        },
    }
}

/// Expand a map of flagged option values.
#[verifier::loop_isolation(false)]
#[verifier::rlimit(100)]
pub fn append_git_option_map(args: &mut Vec<String>, entries: &Vec<(String, SettingsValue)>)
    ensures
        final(args).deep_view() == old(args).deep_view() + spec_git_option_map(entries@),
    decreases entries,
{
    let ghost base = args.deep_view();
    let n = entries.len();
    let mut i: usize = 0;
    proof {
        assert(entries@.subrange(0, 0) =~= Seq::<(String, SettingsValue)>::empty());
        assert(args.deep_view() =~= base + spec_git_option_map(entries@.subrange(0, 0)));
    }
    while i < n
        invariant
            i <= n == entries@.len(),
            args.deep_view() == base + spec_git_option_map(entries@.subrange(0, i as int)),
        decreases n - i,
    {
        let flag = trim_string(entries[i].0.as_str());
        if !flag.as_str().is_empty() {
            match &entries[i].1 {
                SettingsValue::Null => {
                    push_arg(args, flag);
                },
                SettingsValue::Bool(b) => {
                    if *b {
                        push_arg(args, flag);
                    }
                },
                SettingsValue::Str(text) => {
                    push_flag_value(args, &flag, text.clone());
                },
                SettingsValue::Num(nv) => {
                    push_flag_value(args, &flag, i64_string(*nv));
                },
                SettingsValue::Arr(items) => {
                    if items.len() == 0 {
                        push_arg(args, flag);
                    } else {
                        let m = items.len();
                        let ghost mid = args.deep_view();
                        let mut k: usize = 0;
                        proof {
                            assert(items@.subrange(0, 0) =~= Seq::<SettingsValue>::empty());
                            assert(args.deep_view() =~= mid + spec_map_items(
                                flag@,
                                items@.subrange(0, 0),
                            ));
                        }
                        while k < m
                            invariant
                                k <= m == items@.len(),
                                i < n == entries@.len(),
                                entries@[i as int].1 matches SettingsValue::Arr(its) && its@
                                    == items@,
                                args.deep_view() == mid + spec_map_items(
                                    flag@,
                                    items@.subrange(0, k as int),
                                ),
                            decreases m - k,
                        {
                            match &items[k] {
                                SettingsValue::Null => {
                                    push_arg(args, flag.clone());
                                },
                                SettingsValue::Bool(b2) => {
                                    if *b2 {
                                        push_arg(args, flag.clone());
                                    }
                                },
                                SettingsValue::Str(text) => {
                                    push_flag_value(args, &flag, text.clone());
                                },
                                SettingsValue::Num(nv) => {
                                    push_flag_value(args, &flag, i64_string(*nv));
                                },
                                other => {
                                    proof {
                                        assert(decreases_to!(entries@ => entries@[i as int]));
                                        assert(decreases_to!(entries@[i as int] => entries@[
                                            i as int
                                        ].1));
                                        assert(decreases_to!(entries@[i as int].1 => entries@[
                                            i as int
                                        ].1->Arr_0@));
                                        assert(decreases_to!(entries@[i as int].1->Arr_0@
                                            => entries@[i as int].1->Arr_0@[k as int]));
                                    }
                                    append_git_option(args, other);
                                },
                            }
                            k += 1;
                            proof {
                                lemma_map_items_snoc(flag@, items@.subrange(0, k as int));
                                assert(items@.subrange(0, k as int).drop_last()
                                    =~= items@.subrange(0, k - 1));
                                assert(args.deep_view() =~= mid + spec_map_items(
                                    flag@,
                                    items@.subrange(0, k as int),
                                ));
                            }
                        }
                        proof {
                            assert(items@.subrange(0, m as int) =~= items@);
                        }
                    }
                },
                SettingsValue::Obj(_) => {
                    let rendered = write_json(&entries[i].1);
                    push_flag_value(args, &flag, rendered);
                },
            }
        }
        i += 1;
        proof {
            lemma_git_option_map_snoc(entries@.subrange(0, i as int));
            assert(entries@.subrange(0, i as int).drop_last() =~= entries@.subrange(0, i - 1));
            assert(args.deep_view() =~= base + spec_git_option_map(
                entries@.subrange(0, i as int),
            ));
        }
    }
    proof {
        assert(entries@.subrange(0, n as int) =~= entries@);
    }
}

} // verus!
