//! Names under which the compiled functions, sections and trampolines of a
//! module are exported from a native object, and the reverse lookup.
use vstd::prelude::*;

verus! {

// ---------------------------------------------------------------------------
// Decimal text of unsigned integers
// ---------------------------------------------------------------------------

/// The character of a decimal digit.
pub open spec fn digit_char(d: nat) -> char
    recommends
        d < 10,
{
    (48 + d) as char
}

/// Whether `c` is one of the ASCII digits `0` to `9`.
pub open spec fn is_decimal_digit(c: char) -> bool {
    48 <= (c as u32) && (c as u32) <= 57
}

/// The value of an ASCII digit character.
pub open spec fn digit_value(c: char) -> nat {
    ((c as u32) - 48) as nat
}

/// Every character of `s` is an ASCII digit.
pub open spec fn all_decimal_digits(s: Seq<char>) -> bool {
    forall|i: int| 0 <= i < s.len() ==> is_decimal_digit(#[trigger] s[i])
}

/// The number that a string of decimal digits denotes (most significant first).
pub open spec fn digits_value(s: Seq<char>) -> nat
    decreases s.len(),
{
    if s.len() == 0 {
        0
    } else {
        digits_value(s.drop_last()) * 10 + digit_value(s.last())
    }
}

/// The shortest decimal text of `n`: no sign and no leading zeros.
pub open spec fn decimal_digits(n: nat) -> Seq<char>
    decreases n,
{
    if n < 10 {
        seq![digit_char(n)]
    } else {
        decimal_digits(n / 10).push(digit_char(n % 10))
    }
}

/// What `str::parse::<u32>` accepts: an optional `+` followed by one or more
/// ASCII digits whose value fits in 32 bits.
pub open spec fn parse_u32_text(s: Seq<char>) -> Option<u32> {
    let digits = if s.len() > 0 && s[0] == '+' {
        s.drop_first()
    } else {
        s
    };
    if digits.len() > 0 && all_decimal_digits(digits) && digits_value(digits) <= u32::MAX {
        Some(digits_value(digits) as u32)
    } else {
        None
    }
}

/// The text of one decimal digit.
fn digit_text(d: u32) -> (text: &'static str)
    requires
        d < 10,
    ensures
        text@ == seq![digit_char(d as nat)],
{
    proof {
        reveal_strlit("0");
        reveal_strlit("1");
        reveal_strlit("2");
        reveal_strlit("3");
        reveal_strlit("4");
        reveal_strlit("5");
        reveal_strlit("6");
        reveal_strlit("7");
        reveal_strlit("8");
        reveal_strlit("9");
    }
    match d {
        0 => "0",
        1 => "1",
        2 => "2",
        3 => "3",
        4 => "4",
        5 => "5",
        6 => "6",
        7 => "7",
        8 => "8",
        _ => "9",
    }
}

/// Appends the decimal text of `n` to `out`.
fn push_decimal(n: u32, out: &mut String)
    ensures
        final(out)@ == old(out)@ + decimal_digits(n as nat),
    decreases n,
{
    if n >= 10 {
        push_decimal(n / 10, out);
    }
    out.append(digit_text(n % 10));
    proof {
        if n >= 10 {
            assert(old(out)@ + decimal_digits(n as nat) =~= old(out)@ + decimal_digits((n / 10) as nat)
                + seq![digit_char((n % 10) as nat)]);
        } else {
            assert(n % 10 == n);
        }
    }
}

/// The decimal text of `n`, as `u32`'s `Display` writes it.
fn u32_to_decimal(n: u32) -> (text: String)
    ensures
        text@ == decimal_digits(n as nat),
{
    let mut text = String::new();
    push_decimal(n, &mut text);
    assert(Seq::<char>::empty() + decimal_digits(n as nat) =~= decimal_digits(n as nat));
    text
}

/// The value of digits only grows as digits are added at the end.
proof fn lemma_digits_value_prefix(s: Seq<char>, j: int)
    requires
        0 <= j <= s.len(),
    ensures
        digits_value(s.take(j)) <= digits_value(s),
    decreases s.len(),
{
    if j < s.len() {
        assert(s.drop_last().take(j) =~= s.take(j));
        lemma_digits_value_prefix(s.drop_last(), j);
    } else {
        assert(s.take(j) =~= s);
    }
}

/// The `u32` that `s` denotes, as `str::parse::<u32>` reads it: an optional
/// `+`, then one or more ASCII digits whose value fits in 32 bits.
fn parse_u32(s: &str) -> (value: Option<u32>)
    ensures
        value == parse_u32_text(s@),
{
    let n = s.unicode_len();
    let mut start: usize = 0;
    if n > 0 && s.get_char(0) == '+' {
        start = 1;
    }
    let ghost digits = if s@.len() > 0 && s@[0] == '+' {
        s@.drop_first()
    } else {
        s@
    };
    assert(digits =~= s@.skip(start as int));
    if start == n {
        return None;
    }
    let mut value: u64 = 0;
    let mut i: usize = start;
    assert(s@.subrange(start as int, i as int) =~= Seq::<char>::empty());
    while i < n
        invariant
            start <= i <= n,
            n == s@.len(),
            start < n,
            digits == s@.skip(start as int),
            digits == (if s@.len() > 0 && s@[0] == '+' { s@.drop_first() } else { s@ }),
            all_decimal_digits(s@.subrange(start as int, i as int)),
            value == digits_value(s@.subrange(start as int, i as int)),
            value <= u32::MAX,
        decreases n - i,
    {
        let c = s.get_char(i);
        let code = c as u32;
        if code < 48 || code > 57 {
            assert(digits[i - start] == c);
            assert(!is_decimal_digit(digits[i - start]));
            assert(!all_decimal_digits(digits));
            return None;
        }
        let ghost before = s@.subrange(start as int, i as int);
        value = value * 10 + (code - 48) as u64;
        i = i + 1;
        let ghost after = s@.subrange(start as int, i as int);
        assert(after.drop_last() =~= before);
        assert(after.last() == c);
        assert(all_decimal_digits(after));
        assert(digits_value(after) == digits_value(before) * 10 + digit_value(c));
        if value > u32::MAX as u64 {
            proof {
                assert(digits.take(i - start) =~= after);
                lemma_digits_value_prefix(digits, i - start);
                assert(digits_value(digits) > u32::MAX);
            }
            return None;
        }
    }
    assert(s@.subrange(start as int, n as int) =~= digits);
    Some(value as u32)
}

proof fn lemma_digit_char(d: nat)
    requires
        d < 10,
    ensures
        is_decimal_digit(digit_char(d)),
        digit_value(digit_char(d)) == d,
        digit_char(d) != '+',
{
}

/// The decimal text of a number is a non-empty string of digits that denotes it.
pub proof fn lemma_decimal_digits(n: nat)
    ensures
        decimal_digits(n).len() > 0,
        all_decimal_digits(decimal_digits(n)),
        digits_value(decimal_digits(n)) == n,
        decimal_digits(n)[0] != '+',
    decreases n,
{
    if n < 10 {
        lemma_digit_char(n);
        assert(decimal_digits(n).drop_last() =~= Seq::<char>::empty());
        assert(digits_value(Seq::<char>::empty()) == 0);
    } else {
        lemma_decimal_digits(n / 10);
        lemma_digit_char(n % 10);
        let s = decimal_digits(n);
        assert(s.drop_last() =~= decimal_digits(n / 10));
        assert(s[0] == decimal_digits(n / 10)[0]);
        assert(s.last() == digit_char(n % 10));
        assert(digits_value(s) == digits_value(decimal_digits(n / 10)) * 10 + digit_value(
            digit_char(n % 10),
        ));
        assert((n / 10) * 10 + n % 10 == n);
    }
}

/// Parsing the decimal text of a 32-bit number gives the number back.
pub proof fn lemma_parse_decimal(n: u32)
    ensures
        parse_u32_text(decimal_digits(n as nat)) == Some(n),
{
    lemma_decimal_digits(n as nat);
}

// ---------------------------------------------------------------------------
// Entity indices and symbols
// ---------------------------------------------------------------------------

/// Index of a function defined (not imported) by the module.
#[derive(Clone, Copy, Debug, PartialEq, Eq, Structural)]
pub struct LocalFunctionIndex(pub u32);

/// Index of a custom section emitted for the module.
#[derive(Clone, Copy, Debug, PartialEq, Eq, Structural)]
pub struct SectionIndex(pub u32);

/// Index of a function signature of the module.
#[derive(Clone, Copy, Debug, PartialEq, Eq, Structural)]
pub struct SignatureIndex(pub u32);

/// Index of a function of the module, imported ones first.
#[derive(Clone, Copy, Debug, PartialEq, Eq, Structural)]
pub struct FunctionIndex(pub u32);

/// A compiled item that the native object exports under a name.
#[derive(Clone, Copy, Debug, PartialEq, Eq, Structural)]
pub enum Symbol {
    /// The body of a local function.
    LocalFunction(LocalFunctionIndex),
    /// A custom section.
    Section(SectionIndex),
    /// The trampoline that calls a function of the given signature.
    FunctionCallTrampoline(SignatureIndex),
    /// The trampoline through which an imported function is called dynamically.
    DynamicFunctionTrampoline(FunctionIndex),
}

/// The text that starts every name of a symbol of this kind.
pub open spec fn symbol_tag(symbol: Symbol) -> Seq<char> {
    match symbol {
        Symbol::LocalFunction(_) => "wasmer_function_"@,
        Symbol::Section(_) => "wasmer_section_"@,
        Symbol::FunctionCallTrampoline(_) => "wasmer_trampoline_function_call_"@,
        Symbol::DynamicFunctionTrampoline(_) => "wasmer_trampoline_dynamic_function_"@,
    }
}

/// The index that a symbol carries.
pub open spec fn symbol_index(symbol: Symbol) -> u32 {
    match symbol {
        Symbol::LocalFunction(i) => i.0,
        Symbol::Section(i) => i.0,
        Symbol::FunctionCallTrampoline(i) => i.0,
        Symbol::DynamicFunctionTrampoline(i) => i.0,
    }
}

/// The text before the index in every name of a kind: its tag, the module
/// prefix and an underscore.
pub open spec fn name_head(tag: Seq<char>, prefix: Seq<char>) -> Seq<char> {
    tag + prefix + seq!['_']
}

/// The exported name of `symbol` in a module whose names carry `prefix`.
pub open spec fn symbol_name(prefix: Seq<char>, symbol: Symbol) -> Seq<char> {
    name_head(symbol_tag(symbol), prefix) + decimal_digits(symbol_index(symbol) as nat)
}

/// A symbol's name is its kind's tag, then the module prefix (empty or not),
/// then one underscore, then the decimal index, whatever the prefix.
pub proof fn lemma_symbol_name_layout(prefix: Seq<char>, symbol: Symbol)
    ensures
        symbol_name(prefix, symbol) == match symbol {
            Symbol::LocalFunction(i) => "wasmer_function_"@ + prefix + seq!['_'] + decimal_digits(i.0 as nat),
            Symbol::Section(i) => "wasmer_section_"@ + prefix + seq!['_'] + decimal_digits(i.0 as nat),
            Symbol::FunctionCallTrampoline(i) => "wasmer_trampoline_function_call_"@ + prefix + seq!['_']
                + decimal_digits(i.0 as nat),
            Symbol::DynamicFunctionTrampoline(i) => "wasmer_trampoline_dynamic_function_"@ + prefix
                + seq!['_'] + decimal_digits(i.0 as nat),
        },
        symbol_name(prefix, symbol).len() == symbol_tag(symbol).len() + prefix.len() + 1 + decimal_digits(
            symbol_index(symbol) as nat,
        ).len(),
        symbol_name(prefix, symbol)[(symbol_tag(symbol).len() + prefix.len()) as int] == '_',
        symbol_name(prefix, symbol).subrange(
            symbol_tag(symbol).len() as int,
            (symbol_tag(symbol).len() + prefix.len()) as int,
        ) == prefix,
{
    let tag = symbol_tag(symbol);
    let name = symbol_name(prefix, symbol);
    let digits = decimal_digits(symbol_index(symbol) as nat);
    assert(name =~= tag + prefix + seq!['_'] + digits);
    assert(name[(tag.len() + prefix.len()) as int] == (tag + prefix + seq!['_'])[(tag.len() + prefix.len()) as int]);
    assert(name.subrange(tag.len() as int, (tag.len() + prefix.len()) as int) =~= prefix);
}

/// What is left of `s` once `head` is taken off its front, if `s` starts with it.
pub open spec fn strip_head(s: Seq<char>, head: Seq<char>) -> Option<Seq<char>> {
    if head.len() <= s.len() && s.subrange(0, head.len() as int) == head {
        Some(s.skip(head.len() as int))
    } else {
        None
    }
}

/// The symbol that a name denotes: the kinds are tried in the order local
/// function, section, call trampoline, dynamic trampoline, and the first whose
/// head starts the name decides; the rest of the name must then parse as a
/// `u32`.
pub open spec fn symbol_of_name(prefix: Seq<char>, name: Seq<char>) -> Option<Symbol> {
    match strip_head(name, name_head("wasmer_function_"@, prefix)) {
        Some(rest) => match parse_u32_text(rest) {
            Some(i) => Some(Symbol::LocalFunction(LocalFunctionIndex(i))),
            None => None,
        },
        None => match strip_head(name, name_head("wasmer_section_"@, prefix)) {
            Some(rest) => match parse_u32_text(rest) {
                Some(i) => Some(Symbol::Section(SectionIndex(i))),
                None => None,
            },
            None => match strip_head(name, name_head("wasmer_trampoline_function_call_"@, prefix)) {
                Some(rest) => match parse_u32_text(rest) {
                    Some(i) => Some(Symbol::FunctionCallTrampoline(SignatureIndex(i))),
                    None => None,
                },
                None => match strip_head(
                    name,
                    name_head("wasmer_trampoline_dynamic_function_"@, prefix),
                ) {
                    Some(rest) => match parse_u32_text(rest) {
                        Some(i) => Some(Symbol::DynamicFunctionTrampoline(FunctionIndex(i))),
                        None => None,
                    },
                    None => None,
                },
            },
        },
    }
}

/// Takes `head` off the front of `s`, by characters.
fn strip_head_exec<'a>(s: &'a str, head: &str) -> (rest: Option<&'a str>)
    ensures
        match rest {
            Some(r) => strip_head(s@, head@) == Some(r@),
            None => strip_head(s@, head@) is None,
        },
{
    let n = s.unicode_len();
    let m = head.unicode_len();
    if m <= n {
        let front = String::from_str(s.substring_char(0, m));
        let head_string = String::from_str(head);
        if front == head_string {
            Some(s.substring_char(m, n))
        } else {
            None
        }
    } else {
        None
    }
}

/// Resolves symbols to the names under which a module's native object exports
/// them, and back.
pub struct ModuleMetadataSymbolRegistry {
    /// The text that makes the names of this module distinct from others.
    pub prefix: String,
}

impl ModuleMetadataSymbolRegistry {
    /// `tag`, then the prefix, then `_`.
    fn head(&self, tag: &str) -> (head: String)
        ensures
            head@ == name_head(tag@, self.prefix@),
    {
        let mut head = String::from_str(tag);
        head.append(self.prefix.as_str());
        head.append("_");
        proof {
            reveal_strlit("_");
        }
        head
    }

    /// The name under which `symbol` is exported.
    pub fn symbol_to_name(&self, symbol: Symbol) -> (name: String)
        ensures
            name@ == symbol_name(self.prefix@, symbol),
    {
        let (tag, index) = match symbol {
            Symbol::LocalFunction(i) => ("wasmer_function_", i.0),
            Symbol::Section(i) => ("wasmer_section_", i.0),
            Symbol::FunctionCallTrampoline(i) => ("wasmer_trampoline_function_call_", i.0),
            Symbol::DynamicFunctionTrampoline(i) => ("wasmer_trampoline_dynamic_function_", i.0),
        };
        let mut name = self.head(tag);
        let digits = u32_to_decimal(index);
        name.append(digits.as_str());
        name
    }

    /// The symbol exported under `name`, if the name is one that this module
    /// gives out (see `symbol_of_name`).
    pub fn name_to_symbol(&self, name: &str) -> (symbol: Option<Symbol>)
        ensures
            symbol == symbol_of_name(self.prefix@, name@),
    {
        let head = self.head("wasmer_function_");
        if let Some(index) = strip_head_exec(name, head.as_str()) {
            return match parse_u32(index) {
                Some(i) => Some(Symbol::LocalFunction(LocalFunctionIndex(i))),
                None => None,
            };
        }
        let head = self.head("wasmer_section_");
        if let Some(index) = strip_head_exec(name, head.as_str()) {
            return match parse_u32(index) {
                Some(i) => Some(Symbol::Section(SectionIndex(i))),
                None => None,
            };
        }
        let head = self.head("wasmer_trampoline_function_call_");
        if let Some(index) = strip_head_exec(name, head.as_str()) {
            return match parse_u32(index) {
                Some(i) => Some(Symbol::FunctionCallTrampoline(SignatureIndex(i))),
                None => None,
            };
        }
        let head = self.head("wasmer_trampoline_dynamic_function_");
        if let Some(index) = strip_head_exec(name, head.as_str()) {
            return match parse_u32(index) {
                Some(i) => Some(Symbol::DynamicFunctionTrampoline(FunctionIndex(i))),
                None => None,
            };
        }
        None
    }
}

/// A name that starts with `tag` cannot start with the head of a kind whose tag
/// differs from `tag` at position `k`.
proof fn lemma_other_head_rejected(name: Seq<char>, tag: Seq<char>, other: Seq<char>, prefix: Seq<char>, k: int)
    requires
        0 <= k < tag.len(),
        k < other.len(),
        tag[k] != other[k],
        tag.len() <= name.len(),
        name.subrange(0, tag.len() as int) == tag,
    ensures
        strip_head(name, name_head(other, prefix)) is None,
{
    let h = name_head(other, prefix);
    if h.len() <= name.len() && name.subrange(0, h.len() as int) == h {
        assert(name.subrange(0, h.len() as int)[k] == h[k]);
        assert(name.subrange(0, tag.len() as int)[k] == name[k]);
    }
}

/// A name is read back as the symbol it was made for, whatever the prefix.
pub proof fn lemma_symbol_name_round_trip(prefix: Seq<char>, symbol: Symbol)
    ensures
        symbol_of_name(prefix, symbol_name(prefix, symbol)) == Some(symbol),
{
    reveal_strlit("wasmer_function_");
    reveal_strlit("wasmer_section_");
    reveal_strlit("wasmer_trampoline_function_call_");
    reveal_strlit("wasmer_trampoline_dynamic_function_");
    let tag = symbol_tag(symbol);
    let head = name_head(tag, prefix);
    let digits = decimal_digits(symbol_index(symbol) as nat);
    let name = symbol_name(prefix, symbol);
    lemma_parse_decimal(symbol_index(symbol));
    assert(name.subrange(0, head.len() as int) =~= head);
    assert(name.skip(head.len() as int) =~= digits);
    assert(strip_head(name, head) == Some(digits));
    assert(name.subrange(0, tag.len() as int) =~= tag);
    match symbol {
        Symbol::LocalFunction(_) => {},
        Symbol::Section(_) => {
            lemma_other_head_rejected(name, tag, "wasmer_function_"@, prefix, 7);
        },
        Symbol::FunctionCallTrampoline(_) => {
            lemma_other_head_rejected(name, tag, "wasmer_function_"@, prefix, 7);
            lemma_other_head_rejected(name, tag, "wasmer_section_"@, prefix, 7);
        },
        Symbol::DynamicFunctionTrampoline(_) => {
            lemma_other_head_rejected(name, tag, "wasmer_function_"@, prefix, 7);
            lemma_other_head_rejected(name, tag, "wasmer_section_"@, prefix, 7);
            lemma_other_head_rejected(name, tag, "wasmer_trampoline_function_call_"@, prefix, 18);
        },
    }
}

/// A name is read as a symbol only if it is the head of the symbol's kind
/// followed by a text that parses as the symbol's index.
pub proof fn lemma_accepted_name_shape(prefix: Seq<char>, name: Seq<char>, symbol: Symbol)
    requires
        symbol_of_name(prefix, name) == Some(symbol),
    ensures
        exists|index_text: Seq<char>|
            name == name_head(symbol_tag(symbol), prefix) + index_text && parse_u32_text(index_text)
                == Some(symbol_index(symbol)),
{
    let head = name_head(symbol_tag(symbol), prefix);
    let rest = name.skip(head.len() as int);
    assert(strip_head(name, head) == Some(rest));
    assert(name =~= head + rest);
}

/// Distinct symbols are exported under distinct names.
pub proof fn lemma_symbol_names_distinct(prefix: Seq<char>, a: Symbol, b: Symbol)
    requires
        a != b,
    ensures
        symbol_name(prefix, a) != symbol_name(prefix, b),
{
    lemma_symbol_name_round_trip(prefix, a);
    lemma_symbol_name_round_trip(prefix, b);
}

} // verus!
