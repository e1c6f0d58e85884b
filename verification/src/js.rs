//! Building blocks of the injected JavaScript: string escaping, literals and
//! the supported scriptlets.
use vstd::prelude::*;
use vstd::string::StringExecFns;
use crate::text::{chars_of, eq_lit, index_of, index_of_exec, push_char, string_of, subvec, trim, trim_exec};

verus! {

/// The escape of one character inside a single-quoted JS string literal.
pub open spec fn escape_char(c: char) -> Seq<char> {
    if c == '\'' {
        seq!['\\', '\'']
    } else if c == '\\' {
        seq!['\\', '\\']
    } else if c == '\n' {
        seq!['\\', 'n']
    } else if c == '\r' {
        seq!['\\', 'r']
    } else {
        seq![c]
    }
}

/// `s` escaped for a single-quoted JS string literal.
pub open spec fn js_escape(s: Seq<char>) -> Seq<char>
    decreases s.len(),
{
    if s.len() == 0 {
        Seq::empty()
    } else {
        js_escape(s.drop_last()) + escape_char(s.last())
    }
}

/// Appends `s`, escaped for a single-quoted JS string literal, to `out`.
pub fn push_js_escaped(out: &mut String, s: &str)
    ensures
        final(out)@ == old(out)@ + js_escape(s@),
{
    let cs = chars_of(s);
    let n = cs.len();
    let mut i: usize = 0;
    while i < n
        invariant
            n == cs@.len(),
            cs@ == s@,
            i <= n,
            out@ == old(out)@ + js_escape(cs@.take(i as int)),
        decreases n - i,
    {
        let c = cs[i];
        let ghost before = out@;
        if c == '\'' {
            push_char(out, '\\');
            push_char(out, '\'');
        } else if c == '\\' {
            push_char(out, '\\');
            push_char(out, '\\');
        } else if c == '\n' {
            push_char(out, '\\');
            push_char(out, 'n');
        } else if c == '\r' {
            push_char(out, '\\');
            push_char(out, 'r');
        } else {
            push_char(out, c);
        }
        assert(out@ =~= before + escape_char(c));
        assert(cs@.take(i + 1).drop_last() =~= cs@.take(i as int));
        assert(js_escape(cs@.take(i + 1)) == js_escape(cs@.take(i as int)) + escape_char(c));
        i = i + 1;
    }
    assert(cs@.take(n as int) =~= cs@);
}

/// `s` as a single-quoted JS string literal.
pub open spec fn js_string_lit(s: Seq<char>) -> Seq<char> {
    seq!['\''] + js_escape(s) + seq!['\'']
}

/// Wraps a string as a JS string literal (single-quoted, escaped).
pub fn js_string_literal(s: &str) -> (r: String)
    ensures
        r@ == js_string_lit(s@),
{
    let mut out = String::new();
    push_char(&mut out, '\'');
    push_js_escaped(&mut out, s);
    push_char(&mut out, '\'');
    assert(out@ =~= js_string_lit(s@));
    out
}

// ── Number syntax ────────────────────────────────────────────────────────────

pub open spec fn is_ascii_digit(c: char) -> bool {
    '0' <= c && c <= '9'
}

pub open spec fn all_digits(s: Seq<char>) -> bool {
    forall|i: int| 0 <= i < s.len() ==> is_ascii_digit(#[trigger] s[i])
}

/// ASCII letters lowered, everything else kept.
pub open spec fn ascii_lower(s: Seq<char>) -> Seq<char> {
    s.map_values(|c: char| if 'A' <= c && c <= 'Z' { ((c as u32) + 32) as char } else { c })
}

/// `s` without one leading `+` or `-`.
pub open spec fn drop_sign(s: Seq<char>) -> Seq<char> {
    if s.len() > 0 && (s[0] == '+' || s[0] == '-') {
        s.drop_first()
    } else {
        s
    }
}

/// `Digit+ | Digit+ '.' Digit* | Digit* '.' Digit+`
pub open spec fn is_mantissa(m: Seq<char>) -> bool {
    let d = index_of(m, '.');
    if d < 0 {
        m.len() > 0 && all_digits(m)
    } else {
        all_digits(m.take(d)) && all_digits(m.skip(d + 1)) && (d > 0 || m.len() > d + 1)
    }
}

/// `Sign? Digit+`
pub open spec fn is_exponent(x: Seq<char>) -> bool {
    drop_sign(x).len() > 0 && all_digits(drop_sign(x))
}

/// A string that `f64::from_str` accepts, by the grammar its documentation gives:
/// `Sign? ('inf' | 'infinity' | 'nan' | Number)`, `Number ::= Mantissa Exp?`,
/// `Exp ::= 'e' Sign? Digit+`, case-insensitive for the words and `e`.
pub open spec fn is_float_literal(s: Seq<char>) -> bool {
    let b = drop_sign(s);
    let l = ascii_lower(b);
    let e = index_of(l, 'e');
    ||| l == seq!['i', 'n', 'f']
    ||| l == seq!['i', 'n', 'f', 'i', 'n', 'i', 't', 'y']
    ||| l == seq!['n', 'a', 'n']
    ||| (e < 0 && is_mantissa(b))
    ||| (e >= 0 && is_mantissa(b.take(e)) && is_exponent(b.skip(e + 1)))
}

fn is_ascii_digit_exec(c: char) -> (r: bool)
    ensures
        r == is_ascii_digit(c),
{
    '0' <= c && c <= '9'
}

fn all_digits_exec(s: &[char]) -> (r: bool)
    ensures
        r == all_digits(s@),
{
    let n = s.len();
    let mut i: usize = 0;
    while i < n
        invariant
            n == s@.len(),
            i <= n,
            forall|j: int| 0 <= j < i ==> is_ascii_digit(#[trigger] s@[j]),
        decreases n - i,
    {
        if !is_ascii_digit_exec(s[i]) {
            return false;
        }
        i = i + 1;
    }
    true
}

fn ascii_lower_exec(s: &[char]) -> (r: Vec<char>)
    ensures
        r@ == ascii_lower(s@),
{
    let n = s.len();
    let mut r: Vec<char> = Vec::new();
    let mut i: usize = 0;
    while i < n
        invariant
            n == s@.len(),
            i <= n,
            r@ == ascii_lower(s@.take(i as int)),
        decreases n - i,
    {
        let c = s[i];
        let d = if 'A' <= c && c <= 'Z' {
            let u = (c as u32) + 32;
            assert(0x61 <= u <= 0x7a);
            char_from_ascii_lower(u)
        } else {
            c
        };
        r.push(d);
        assert(ascii_lower(s@.take(i + 1)) =~= ascii_lower(s@.take(i as int)).push(d));
        i = i + 1;
    }
    assert(s@.take(n as int) =~= s@);
    r
}

/// The lower-case ASCII letter with code `u`.
fn char_from_ascii_lower(u: u32) -> (c: char)
    requires
        0x61 <= u <= 0x7a,
    ensures
        c == u as char,
{
    let b = u as u8;
    b as char
}


fn drop_sign_exec(s: &[char]) -> (r: Vec<char>)
    ensures
        r@ == drop_sign(s@),
{
    if s.len() > 0 && (s[0] == '+' || s[0] == '-') {
        let r = subvec(s, 1, s.len());
        assert(r@ =~= s@.drop_first());
        r
    } else {
        subvec(s, 0, s.len())
    }
}

fn is_mantissa_exec(m: &[char]) -> (r: bool)
    ensures
        r == is_mantissa(m@),
{
    let mlen = m.len();
    match index_of_exec(m, '.') {
        None => mlen > 0 && all_digits_exec(m),
        Some(d) => {
            let a = subvec(m, 0, d);
            let b = subvec(m, d + 1, mlen);
            assert(a@ =~= m@.take(d as int));
            assert(b@ =~= m@.skip(d + 1));
            all_digits_exec(&a) && all_digits_exec(&b) && (d > 0 || m.len() > d + 1)
        },
    }
}

fn is_exponent_exec(x: &[char]) -> (r: bool)
    ensures
        r == is_exponent(x@),
{
    let y = drop_sign_exec(x);
    y.len() > 0 && all_digits_exec(&y)
}

/// Whether `f64::from_str` would accept `s`.
pub fn is_float_literal_exec(s: &[char]) -> (r: bool)
    ensures
        r == is_float_literal(s@),
{
    let b = drop_sign_exec(s);
    let l = ascii_lower_exec(&b);
    let inf = chars_of("inf");
    let infinity = chars_of("infinity");
    let nan = chars_of("nan");
    proof {
        reveal_strlit("inf");
        reveal_strlit("infinity");
        reveal_strlit("nan");
        assert(inf@ =~= seq!['i', 'n', 'f']);
        assert(infinity@ =~= seq!['i', 'n', 'f', 'i', 'n', 'i', 't', 'y']);
        assert(nan@ =~= seq!['n', 'a', 'n']);
    }
    if crate::text::eq_chars(&l, &inf) || crate::text::eq_chars(&l, &infinity) || crate::text::eq_chars(&l, &nan) {
        return true;
    }
    assert(l@.len() == b@.len());
    let blen = b.len();
    match index_of_exec(&l, 'e') {
        None => is_mantissa_exec(&b),
        Some(e) => {
            let m = subvec(&b, 0, e);
            let x = subvec(&b, e + 1, blen);
            assert(m@ =~= b@.take(e as int));
            assert(x@ =~= b@.skip(e + 1));
            is_mantissa_exec(&m) && is_exponent_exec(&x)
        },
    }
}

/// `s` as a JS primitive: `true`, `false`, `null`, `undefined` and numbers
/// bare, anything else as a quoted string.
pub open spec fn js_primitive(s: Seq<char>) -> Seq<char> {
    if s == "true"@ || s == "false"@ || s == "null"@ || s == "undefined"@ || is_float_literal(s) {
        s
    } else {
        js_string_lit(s)
    }
}

/// Converts a string token to a JS primitive literal.
pub fn js_primitive_literal(s: &str) -> (r: String)
    ensures
        r@ == js_primitive(s@),
{
    let cs = chars_of(s);
    if eq_lit(&cs, "true") || eq_lit(&cs, "false") || eq_lit(&cs, "null") || eq_lit(&cs, "undefined")
        || is_float_literal_exec(&cs) {
        string_of(&cs)
    } else {
        js_string_literal(s)
    }
}


// ── Scriptlets ───────────────────────────────────────────────────────────────

/// `payload.splitn(3, ',')`: up to three pieces, the last one keeping any
/// further commas.
pub open spec fn scriptlet_parts(p: Seq<char>) -> Seq<Seq<char>> {
    let i = index_of(p, ',');
    if i < 0 {
        seq![p]
    } else {
        let rest = p.skip(i + 1);
        let j = index_of(rest, ',');
        if j < 0 {
            seq![p.take(i), rest]
        } else {
            seq![p.take(i), rest.take(j), rest.skip(j + 1)]
        }
    }
}

/// The JS that the scriptlet call `payload` (`name, arg1, arg2`) stands for,
/// or `None` for an unknown or incomplete one.
pub open spec fn scriptlet_js(payload: Seq<char>) -> Option<Seq<char>> {
    let parts = scriptlet_parts(payload);
    let name = trim(parts[0]);
    let arg1 = if parts.len() > 1 { trim(parts[1]) } else { Seq::empty() };
    let arg2 = if parts.len() > 2 { trim(parts[2]) } else { Seq::empty() };
    if name == "set-constant"@ {
        if arg1.len() == 0 {
            None
        } else {
            Some("try{Object.defineProperty(window,"@ + js_string_lit(arg1) + ",{value:"@ + js_primitive(arg2)
                + ",writable:false})}catch(e){};"@)
        }
    } else if name == "abort-on-property-read"@ {
        if arg1.len() == 0 {
            None
        } else {
            Some("try{Object.defineProperty(window,"@ + js_string_lit(arg1)
                + ",{get:function(){throw new ReferenceError()}})}catch(e){};"@)
        }
    } else if name == "abort-on-property-write"@ {
        if arg1.len() == 0 {
            None
        } else {
            Some("try{Object.defineProperty(window,"@ + js_string_lit(arg1)
                + ",{set:function(){throw new ReferenceError()}})}catch(e){};"@)
        }
    } else if name == "prevent-setTimeout"@ {
        Some("window.setTimeout=function(){};"@)
    } else if name == "prevent-setInterval"@ {
        Some("window.setInterval=function(){};"@)
    } else if name == "no-op"@ || name == "noop"@ {
        Some("void 0;"@)
    } else {
        None
    }
}

/// `x`, then `c`, then `y`, where `x` holds no `c`: the first `c` is the
/// one after `x`.
proof fn lemma_first_sep(x: Seq<char>, c: char, y: Seq<char>)
    requires
        !x.contains(c),
    ensures
        index_of(x.push(c) + y, c) == x.len(),
        (x.push(c) + y).take(x.len() as int) == x,
        (x.push(c) + y).skip(x.len() as int + 1) == y,
{
    let s = x.push(c) + y;
    crate::text::lemma_index_of(s, c);
    let k = index_of(s, c);
    assert(s[x.len() as int] == c);
    if k < x.len() {
        assert(s[k] == x[k]);
    }
    assert(s.take(x.len() as int) =~= x);
    assert(s.skip(x.len() as int + 1) =~= y);
}

/// The JS of the property scriptlets for a property `a` and a value `v`.
pub open spec fn property_trap_js(name: Seq<char>, a: Seq<char>, v: Seq<char>) -> Option<Seq<char>> {
    if name == "abort-on-property-read"@ {
        Some("try{Object.defineProperty(window,"@ + js_string_lit(a)
            + ",{get:function(){throw new ReferenceError()}})}catch(e){};"@)
    } else if name == "abort-on-property-write"@ {
        Some("try{Object.defineProperty(window,"@ + js_string_lit(a)
            + ",{set:function(){throw new ReferenceError()}})}catch(e){};"@)
    } else if name == "set-constant"@ {
        Some("try{Object.defineProperty(window,"@ + js_string_lit(a) + ",{value:"@ + js_primitive(v)
            + ",writable:false})}catch(e){};"@)
    } else {
        None
    }
}

/// The property traps name their first argument: for a payload `name, a`
/// whose (trimmed) name is `abort-on-property-read`,
/// `abort-on-property-write` or `set-constant` and whose trimmed argument
/// `a` is not empty, the JS defines the window property named `a` (a read
/// trap, a write trap, or a constant with no value).
pub proof fn law_property_scriptlet_names_its_argument(name: Seq<char>, a: Seq<char>)
    requires
        !name.contains(','),
        !a.contains(','),
        trim(a).len() > 0,
        property_trap_js(trim(name), trim(a), Seq::empty()) is Some,
    ensures
        scriptlet_js(name.push(',') + a) == property_trap_js(trim(name), trim(a), Seq::empty()),
{
    reveal_strlit("set-constant");
    reveal_strlit("abort-on-property-read");
    reveal_strlit("abort-on-property-write");
    assert("abort-on-property-read"@.len() != "set-constant"@.len());
    assert("abort-on-property-write"@.len() != "set-constant"@.len());
    assert("abort-on-property-read"@[20] != "abort-on-property-write"@[20]);
    lemma_first_sep(name, ',', a);
    crate::text::lemma_index_of(a, ',');
    let p = name.push(',') + a;
    assert(scriptlet_parts(p) == seq![name, a]);
}

/// The same with further arguments: for a payload `name, a, rest` the
/// property is still the first argument `a`, and a constant's value is the
/// trimmed rest.
pub proof fn law_property_scriptlet_names_first_argument(name: Seq<char>, a: Seq<char>, rest: Seq<char>)
    requires
        !name.contains(','),
        !a.contains(','),
        trim(a).len() > 0,
        property_trap_js(trim(name), trim(a), trim(rest)) is Some,
    ensures
        scriptlet_js(name.push(',') + a.push(',') + rest) == property_trap_js(trim(name), trim(a), trim(rest)),
{
    reveal_strlit("set-constant");
    reveal_strlit("abort-on-property-read");
    reveal_strlit("abort-on-property-write");
    assert("abort-on-property-read"@.len() != "set-constant"@.len());
    assert("abort-on-property-write"@.len() != "set-constant"@.len());
    assert("abort-on-property-read"@[20] != "abort-on-property-write"@[20]);
    let tail = a.push(',') + rest;
    lemma_first_sep(name, ',', tail);
    lemma_first_sep(a, ',', rest);
    assert(name.push(',') + a.push(',') + rest =~= name.push(',') + tail);
    let p = name.push(',') + tail;
    assert(scriptlet_parts(p) == seq![name, a, rest]);
}

/// The scriptlets without arguments: for a payload with no comma, the JS
/// depends on the trimmed name alone: `prevent-setTimeout` and
/// `prevent-setInterval` replace the timer, `no-op` and `noop` do nothing,
/// and every other name (a property scriptlet without its property among
/// them) gives no JS.
pub proof fn law_scriptlets_without_arguments(name: Seq<char>)
    requires
        !name.contains(','),
    ensures
        scriptlet_js(name) == if trim(name) == "prevent-setTimeout"@ {
            Some("window.setTimeout=function(){};"@)
        } else if trim(name) == "prevent-setInterval"@ {
            Some("window.setInterval=function(){};"@)
        } else if trim(name) == "no-op"@ || trim(name) == "noop"@ {
            Some("void 0;"@)
        } else {
            None::<Seq<char>>
        },
{
    reveal_strlit("set-constant");
    reveal_strlit("abort-on-property-read");
    reveal_strlit("abort-on-property-write");
    reveal_strlit("prevent-setTimeout");
    reveal_strlit("prevent-setInterval");
    reveal_strlit("no-op");
    reveal_strlit("noop");
    crate::text::lemma_index_of(name, ',');
    assert(scriptlet_parts(name) == seq![name]);
    assert(trim(Seq::<char>::empty()) =~= Seq::<char>::empty());
    assert("set-constant"@[0] == 's' && "prevent-setTimeout"@[0] == 'p' && "no-op"@[0] == 'n');
    assert("abort-on-property-read"@[0] == 'a' && "abort-on-property-write"@[0] == 'a' && "noop"@[0] == 'n');
    assert("prevent-setInterval"@[0] == 'p');
}

fn scriptlet_parts_exec(p: &[char]) -> (r: Vec<Vec<char>>)
    ensures
        crate::text::views_of(r@) == scriptlet_parts(p@),
{
    let n = p.len();
    let mut r: Vec<Vec<char>> = Vec::new();
    match index_of_exec(p, ',') {
        None => {
            r.push(subvec(p, 0, n));
            assert(p@.subrange(0, n as int) =~= p@);
        },
        Some(i) => {
            let first = subvec(p, 0, i);
            let rest = subvec(p, i + 1, n);
            assert(first@ =~= p@.take(i as int));
            assert(rest@ =~= p@.skip(i + 1));
            r.push(first);
            match index_of_exec(&rest, ',') {
                None => {
                    r.push(rest);
                },
                Some(j) => {
                    let rlen = rest.len();
                    let second = subvec(&rest, 0, j);
                    let third = subvec(&rest, j + 1, rlen);
                    assert(second@ =~= rest@.take(j as int));
                    assert(third@ =~= rest@.skip(j + 1));
                    r.push(second);
                    r.push(third);
                },
            }
        },
    }
    assert(crate::text::views_of(r@) =~= scriptlet_parts(p@));
    r
}

/// Converts a scriptlet payload (`name, arg1, arg2`) into executable JS.
///
/// Supported scriptlets: `set-constant, <prop>, <value>`,
/// `abort-on-property-read, <prop>`, `abort-on-property-write, <prop>`,
/// `prevent-setTimeout`, `prevent-setInterval`, `no-op` / `noop`.
/// Unknown scriptlets give `None`.
pub fn compile_scriptlet(payload: &str) -> (r: Option<String>)
    ensures
        match r {
            Some(js) => scriptlet_js(payload@) == Some(js@),
            None => scriptlet_js(payload@) is None,
        },
{
    let pc = chars_of(payload);
    let parts = scriptlet_parts_exec(&pc);
    let ghost pv = crate::text::views_of(parts@);
    assert(pv.len() >= 1);
    assert(parts@[0]@ == pv[0]);
    let name = string_of(&trim_exec(&parts[0]));
    let arg1 = if parts.len() > 1 {
        assert(parts@[1]@ == pv[1]);
        string_of(&trim_exec(&parts[1]))
    } else {
        String::new()
    };
    let arg2 = if parts.len() > 2 {
        assert(parts@[2]@ == pv[2]);
        string_of(&trim_exec(&parts[2]))
    } else {
        String::new()
    };
    let name_c = chars_of(name.as_str());
    let a1 = chars_of(arg1.as_str());
    if eq_lit(&name_c, "set-constant") {
        if a1.len() == 0 {
            return None;
        }
        let mut js = String::new();
        js.append("try{Object.defineProperty(window,");
        js.append(js_string_literal(arg1.as_str()).as_str());
        js.append(",{value:");
        js.append(js_primitive_literal(arg2.as_str()).as_str());
        js.append(",writable:false})}catch(e){};");
        Some(js)
    } else if eq_lit(&name_c, "abort-on-property-read") {
        if a1.len() == 0 {
            return None;
        }
        let mut js = String::new();
        js.append("try{Object.defineProperty(window,");
        js.append(js_string_literal(arg1.as_str()).as_str());
        js.append(",{get:function(){throw new ReferenceError()}})}catch(e){};");
        Some(js)
    } else if eq_lit(&name_c, "abort-on-property-write") {
        if a1.len() == 0 {
            return None;
        }
        let mut js = String::new();
        js.append("try{Object.defineProperty(window,");
        js.append(js_string_literal(arg1.as_str()).as_str());
        js.append(",{set:function(){throw new ReferenceError()}})}catch(e){};");
        Some(js)
    } else if eq_lit(&name_c, "prevent-setTimeout") {
        Some(String::from_str("window.setTimeout=function(){};"))
    } else if eq_lit(&name_c, "prevent-setInterval") {
        Some(String::from_str("window.setInterval=function(){};"))
    } else if eq_lit(&name_c, "no-op") || eq_lit(&name_c, "noop") {
        Some(String::from_str("void 0;"))
    } else {
        None
    }
}

// ── Bundle ───────────────────────────────────────────────────────────────────

/// `s` with later repetitions of an element removed (first occurrences kept, in order).
pub open spec fn dedup(s: Seq<Seq<char>>) -> Seq<Seq<char>>
    decreases s.len(),
{
    if s.len() == 0 {
        s
    } else if s.drop_last().contains(s.last()) {
        dedup(s.drop_last())
    } else {
        dedup(s.drop_last()).push(s.last())
    }
}

pub proof fn lemma_dedup_contains(s: Seq<Seq<char>>, x: Seq<char>)
    ensures
        dedup(s).contains(x) == s.contains(x),
    decreases s.len(),
{
    if s.len() > 0 {
        lemma_dedup_contains(s.drop_last(), x);
        let d = dedup(s.drop_last());
        if s.contains(x) {
            let i = choose|i: int| 0 <= i < s.len() && s[i] == x;
            if i < s.len() - 1 {
                assert(s.drop_last()[i] == x);
            }
        }
        if s.drop_last().contains(x) {
            let i = choose|i: int| 0 <= i < s.drop_last().len() && s.drop_last()[i] == x;
            assert(s[i] == x);
        }
        if !s.drop_last().contains(s.last()) {
            if d.push(s.last()).contains(x) {
                let i = choose|i: int| 0 <= i < d.push(s.last()).len() && d.push(s.last())[i] == x;
                if i < d.len() {
                    assert(d[i] == x);
                }
            }
            if d.contains(x) {
                let i = choose|i: int| 0 <= i < d.len() && d[i] == x;
                assert(d.push(s.last())[i] == x);
            }
            assert(d.push(s.last())[d.len() as int] == s.last());
        }
    }
}

/// The selectors of the style block are pairwise distinct.
pub proof fn law_dedup_distinct(s: Seq<Seq<char>>)
    ensures
        forall|i: int, j: int| 0 <= i < j < dedup(s).len() ==> dedup(s)[i] != dedup(s)[j],
    decreases s.len(),
{
    if s.len() > 0 {
        let init = s.drop_last();
        law_dedup_distinct(init);
        let d = dedup(init);
        if !init.contains(s.last()) {
            lemma_dedup_contains(init, s.last());
            let e = d.push(s.last());
            assert forall|i: int, j: int| 0 <= i < j < e.len() implies e[i] != e[j] by {
                if j == d.len() {
                    assert(e[i] == d[i]);
                    assert(d.contains(d[i]));
                }
            }
        }
    }
}

/// All the scriptlets' JS, one after another (unknown ones give nothing).
pub open spec fn scriptlets_js(ps: Seq<Seq<char>>) -> Seq<char>
    decreases ps.len(),
{
    if ps.len() == 0 {
        Seq::empty()
    } else {
        scriptlets_js(ps.drop_last()) + match scriptlet_js(ps.last()) {
            Some(j) => j,
            None => Seq::empty(),
        }
    }
}

/// The injected script: an IIFE with one `<style>` element hiding the
/// selectors (repetitions removed) when there are any, then the scriptlets.
pub open spec fn bundle_js(css: Seq<Seq<char>>, scripts: Seq<Seq<char>>) -> Seq<char> {
    "(function(){"@ + (if css.len() > 0 {
        "var s=document.createElement('style');"@ + "s.textContent='"@ + js_escape(
            crate::text::join_with(dedup(css), ','),
        ) + "{display:none!important}';"@ + "document.documentElement.appendChild(s);"@
    } else {
        Seq::empty()
    }) + scriptlets_js(scripts) + "})();"@
}

/// Compiles CSS selectors and scriptlet payloads into a single JS string,
/// wrapped in an IIFE.
pub fn compile_bundle(css_selectors: &Vec<String>, scriptlets: &Vec<String>) -> (r: String)
    ensures
        r@ == bundle_js(css_selectors.deep_view(), scriptlets.deep_view()),
{
    let mut out = String::new();
    out.append("(function(){");
    let ghost css = css_selectors.deep_view();
    if css_selectors.len() > 0 {
        // Deduplicate selectors while preserving order.
        let n = css_selectors.len();
        let mut unique: Vec<String> = Vec::new();
        let mut i: usize = 0;
        while i < n
            invariant
                n == css.len(),
                css == css_selectors.deep_view(),
                i <= n,
                unique.deep_view() == dedup(css.take(i as int)),
            decreases n - i,
        {
            let sel = &css_selectors[i];
            proof {
                lemma_dedup_contains(css.take(i as int), sel@);
                assert(css.take(i + 1).drop_last() =~= css.take(i as int));
                assert(css.take(i + 1).last() == sel@);
            }
            if !contains_string(&unique, sel) {
                let ghost before = unique.deep_view();
                unique.push(sel.clone());
                assert(unique.deep_view() =~= before.push(sel@));
            }
            i = i + 1;
        }
        assert(css.take(n as int) =~= css);
        let joined = join_strings(&unique, ',');
        out.append("var s=document.createElement('style');");
        out.append("s.textContent='");
        push_js_escaped(&mut out, joined.as_str());
        out.append("{display:none!important}';");
        out.append("document.documentElement.appendChild(s);");
    }
    let ghost mid = out@;
    let ghost sc = scriptlets.deep_view();
    let m = scriptlets.len();
    let mut k: usize = 0;
    while k < m
        invariant
            m == sc.len(),
            sc == scriptlets.deep_view(),
            k <= m,
            out@ == mid + scriptlets_js(sc.take(k as int)),
        decreases m - k,
    {
        proof {
            assert(sc.take(k + 1).drop_last() =~= sc.take(k as int));
            assert(sc.take(k + 1).last() == scriptlets@[k as int]@);
        }
        match compile_scriptlet(scriptlets[k].as_str()) {
            Some(js) => {
                out.append(js.as_str());
            },
            None => {},
        }
        k = k + 1;
    }
    assert(sc.take(m as int) =~= sc);
    out.append("})();");
    assert(out@ =~= bundle_js(css, sc));
    out
}

/// Whether `v` holds a string equal to `s`.
pub fn contains_string(v: &Vec<String>, s: &String) -> (r: bool)
    ensures
        r == v.deep_view().contains(s@),
{
    let n = v.len();
    let mut i: usize = 0;
    while i < n
        invariant
            n == v@.len(),
            i <= n,
            forall|j: int| 0 <= j < i ==> v.deep_view()[j] != s@,
        decreases n - i,
    {
        if v[i] == *s {
            assert(v.deep_view()[i as int] == s@);
            return true;
        }
        i = i + 1;
    }
    false
}

/// The strings of `v` joined with `sep`.
pub fn join_strings(v: &Vec<String>, sep: char) -> (r: String)
    ensures
        r@ == crate::text::join_with(v.deep_view(), sep),
{
    let ghost vs = v.deep_view();
    let n = v.len();
    let mut out = String::new();
    if n == 0 {
        return out;
    }
    out.append(v[0].as_str());
    assert(vs.take(1) =~= seq![vs[0]]);
    let mut i: usize = 1;
    while i < n
        invariant
            n == vs.len(),
            vs == v.deep_view(),
            1 <= i <= n,
            out@ == crate::text::join_with(vs.take(i as int), sep),
        decreases n - i,
    {
        push_char(&mut out, sep);
        out.append(v[i].as_str());
        assert(vs.take(i + 1).drop_last() =~= vs.take(i as int));
        i = i + 1;
    }
    assert(vs.take(n as int) =~= vs);
    out
}

} // verus!
