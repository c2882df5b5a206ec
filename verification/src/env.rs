//! Environment-variable layer: prefix matching, key mapping, type
//! inference.
use vstd::prelude::*;
use crate::error::{ConfigError, ConfigErrorView};
use crate::text::{same_text, has_prefix, strip_prefix, lowercase, to_lowercase, decimal, digit_char};
use crate::value::{ConfigValue, Tree, find_key, lemma_find_key};

verus! {

/// Whether `c` is an ASCII decimal digit.
pub open spec fn is_digit(c: char) -> bool {
    48 <= (c as u32) <= 57
}

/// The value of the decimal numeral `s`.
pub open spec fn digits_value(s: Seq<char>) -> int
    decreases s.len(),
{
    if s.len() == 0 {
        0
    } else {
        digits_value(s.subrange(0, s.len() - 1)) * 10 + ((s[s.len() - 1] as u32) - 48)
    }
}

/// Every character of `s` is a digit.
pub open spec fn all_digits(s: Seq<char>) -> bool {
    forall|i: int| 0 <= i < s.len() ==> is_digit(#[trigger] s[i])
}

/// `s` without its leading sign, if it has one.
pub open spec fn literal_body(s: Seq<char>) -> Seq<char> {
    if s.len() > 0 && (s[0] == '-' || s[0] == '+') {
        s.subrange(1, s.len() as int)
    } else {
        s
    }
}

/// The integer that `s` spells: an optional `+` or `-` followed by one or
/// more ASCII digits, and nothing else.
pub open spec fn integer_literal(s: Seq<char>) -> Option<int> {
    let body = literal_body(s);
    if body.len() > 0 && all_digits(body) {
        Some(
            if s[0] == '-' {
                -digits_value(body)
            } else {
                digits_value(body)
            },
        )
    } else {
        None
    }
}

/// What `i64`'s `FromStr` gives for `s`: the integer it spells, when that
/// fits in an `i64`.
pub open spec fn i64_literal(s: Seq<char>) -> Option<i64> {
    match integer_literal(s) {
        Some(v) => if i64::MIN <= v <= i64::MAX {
            Some(v as i64)
        } else {
            None
        },
        None => None,
    }
}

proof fn lemma_digits_push(s: Seq<char>, c: char)
    ensures
        digits_value(s.push(c)) == digits_value(s) * 10 + ((c as u32) - 48),
{
    assert(s.push(c).subrange(0, s.len() as int) =~= s);
}

proof fn lemma_digits_nonneg(s: Seq<char>)
    requires
        forall|i: int| 0 <= i < s.len() ==> is_digit(#[trigger] s[i]),
    ensures
        digits_value(s) >= 0,
    decreases s.len(),
{
    if s.len() > 0 {
        let p = s.subrange(0, s.len() - 1);
        assert forall|i: int| 0 <= i < p.len() implies is_digit(#[trigger] p[i]) by {
            assert(p[i] == s[i]);
        }
        lemma_digits_nonneg(p);
        assert(is_digit(s[s.len() - 1]));
    }
}

/// Parses `text` as a decimal `i64`, the way `i64`'s `FromStr` does.
pub fn parse_i64(text: &str) -> (r: Option<i64>)
    ensures
        r == i64_literal(text@),
{
    let n = text.unicode_len();
    if n == 0 {
        return None;
    }
    let first = text.get_char(0);
    let negative = first == '-';
    let start: usize = if first == '-' || first == '+' {
        1
    } else {
        0
    };
    let ghost body = text@.subrange(start as int, n as int);
    proof {
        assert(start == 0 ==> body =~= text@);
    }
    if start == n {
        return None;
    }
    let limit: u64 = if negative {
        0x8000_0000_0000_0000
    } else {
        0x7fff_ffff_ffff_ffff
    };
    let mut acc: u64 = 0;
    let mut overflow = false;
    let mut i: usize = start;
    while i < n
        invariant
            n == text@.len(),
            start <= i <= n,
            start < n,
            limit == (if negative { 0x8000_0000_0000_0000u64 } else { 0x7fff_ffff_ffff_ffffu64 }),
            negative == (text@[0] == '-'),
            start == 1 <==> (text@[0] == '-' || text@[0] == '+'),
            start == 0 ==> body == text@,
            body == text@.subrange(start as int, n as int),
            forall|j: int| 0 <= j < i - start ==> is_digit(#[trigger] body[j]),
            !overflow ==> acc as int == digits_value(body.subrange(0, i - start)),
            !overflow ==> acc <= limit,
            overflow ==> digits_value(body.subrange(0, i - start)) > limit,
        decreases n - i,
    {
        let c = text.get_char(i);
        let code = c as u32;
        if code < 48 || code > 57 {
            proof {
                assert(body[i - start] == c);
                assert(!is_digit(body[i - start]));
                assert(integer_literal(text@) is None);
            }
            return None;
        }
        let d: u64 = (code - 48) as u64;
        let ghost prev = body.subrange(0, i - start);
        proof {
            assert(body[i - start] == c);
            assert(body.subrange(0, i - start + 1) =~= prev.push(c));
            lemma_digits_push(prev, c);
            assert forall|j: int| 0 <= j < i - start implies is_digit(#[trigger] prev[j]) by {
                assert(prev[j] == body[j]);
            }
            lemma_digits_nonneg(prev);
        }
        if !overflow {
            if acc > (limit - d) / 10 {
                overflow = true;
                proof {
                    assert(acc * 10 + d > limit) by (nonlinear_arith)
                        requires
                            acc > (limit - d) / 10,
                            d <= 9,
                            d <= limit,
                    ;
                }
            } else {
                proof {
                    assert(acc * 10 + d <= limit) by (nonlinear_arith)
                        requires
                            acc <= (limit - d) / 10,
                            d <= limit,
                    ;
                }
                acc = acc * 10 + d;
            }
        } else {
            proof {
                assert(digits_value(prev) * 10 + d >= digits_value(prev)) by (nonlinear_arith)
                    requires
                        digits_value(prev) >= 0,
                        d >= 0,
                ;
            }
        }
        i = i + 1;
    }
    proof {
        assert(body.subrange(0, n - start) =~= body);
        assert(start == 1 ==> text@[0] == '-' || text@[0] == '+');
        assert(forall|j: int| 0 <= j < body.len() ==> is_digit(#[trigger] body[j]));
    }
    if overflow {
        return None;
    }
    if negative {
        if acc == 0x8000_0000_0000_0000 {
            Some(i64::MIN)
        } else {
            Some(-(acc as i64))
        }
    } else {
        Some(acc as i64)
    }
}

/// The value typed from a raw environment string, where `float_bits` is
/// the bit pattern of the binary64 float that `raw` reads as, if it reads
/// as one.
pub open spec fn infer_tree(raw: Seq<char>, float_bits: Option<u64>) -> Tree {
    if raw == "true"@ {
        Tree::Boolean(true)
    } else if raw == "false"@ {
        Tree::Boolean(false)
    } else {
        match i64_literal(raw) {
            Some(n) => Tree::Integer(n),
            None => match float_bits {
                Some(b) => Tree::Float(b),
                None => Tree::String(raw),
            },
        }
    }
}

/// Infers a typed value from a raw environment string: `true`/`false`
/// become booleans, integer literals `i64`, float literals `f64`, and
/// anything else is taken verbatim as a string. Float parsing stays with
/// the caller: `float_bits` is the bit pattern of the binary64 float that
/// `raw` reads as, if it reads as one.
pub fn infer(raw: &str, float_bits: Option<u64>) -> (r: ConfigValue)
    ensures
        r@ == infer_tree(raw@, float_bits),
{
    if same_text(raw, "true") {
        return ConfigValue::Boolean(true);
    }
    if same_text(raw, "false") {
        return ConfigValue::Boolean(false);
    }
    match parse_i64(raw) {
        Some(n) => ConfigValue::Integer(n),
        None => match float_bits {
            Some(b) => ConfigValue::Float(b),
            None => ConfigValue::String(String::from_str(raw)),
        },
    }
}


/// The decimal text of `n`, with a leading `-` when it is negative: how
/// an integer prints.
pub open spec fn int_text(n: int) -> Seq<char> {
    if n < 0 {
        seq!['-'] + decimal((-n) as nat)
    } else {
        decimal(n as nat)
    }
}

proof fn lemma_decimal(n: nat)
    ensures
        decimal(n).len() >= 1,
        all_digits(decimal(n)),
        digits_value(decimal(n)) == n,
    decreases n,
{
    let c = digit_char(n % 10);
    assert((c as u32) == n % 10 + 48);
    if n >= 10 {
        lemma_decimal(n / 10);
        let p = decimal(n / 10);
        lemma_digits_push(p, c);
        assert(decimal(n) == p.push(c));
        assert((n / 10) * 10 + n % 10 == n) by (nonlinear_arith);
        assert(digits_value(decimal(n)) == (n / 10) * 10 + n % 10);
        assert forall|i: int| 0 <= i < decimal(n).len() implies is_digit(#[trigger] decimal(n)[i]) by {
            if i < p.len() {
                assert(decimal(n)[i] == p[i]);
            }
        }
    } else {
        assert(decimal(n) == seq![c]);
        assert(seq![c].subrange(0, 0) =~= Seq::<char>::empty());
        assert(digits_value(Seq::<char>::empty()) == 0);
        assert(digits_value(seq![c]) == (c as u32) - 48);
    }
}

/// An integer printed and read back as an environment value comes back
/// unchanged, whatever float the text would also read as.
pub proof fn printed_integer_reads_back(n: i64, float_bits: Option<u64>)
    ensures
        infer_tree(int_text(n as int), float_bits) == Tree::Integer(n),
{
    reveal_strlit("true");
    reveal_strlit("false");
    let s = int_text(n as int);
    if n < 0 {
        let m = (-n) as nat;
        lemma_decimal(m);
        assert(s[0] == '-');
        assert(s.subrange(1, s.len() as int) =~= decimal(m));
        assert(literal_body(s) == decimal(m));
    } else {
        let m = n as nat;
        lemma_decimal(m);
        assert(is_digit(s[0]));
        assert(literal_body(s) == s);
    }
    assert(s != "true"@) by {
        if s == "true"@ {
            assert(s[0] == 't');
        }
    }
    assert(s != "false"@) by {
        if s == "false"@ {
            assert(s[0] == 'f');
        }
    }
}

/// A boolean printed and read back as an environment value comes back
/// unchanged.
pub proof fn printed_boolean_reads_back(b: bool, float_bits: Option<u64>)
    ensures
        infer_tree(if b { "true"@ } else { "false"@ }, float_bits) == Tree::Boolean(b),
{
    reveal_strlit("true");
    reveal_strlit("false");
    assert("true"@ != "false"@) by {
        assert("true"@.len() != "false"@.len());
    }
}

/// One environment variable as the process holds it.
pub struct EnvEntry {
    /// The variable's name, or `None` when the name is not valid Unicode.
    pub key: Option<String>,
    /// The variable's value, or a message saying why it is not valid
    /// Unicode.
    pub value: Result<String, String>,
    /// The bit pattern of the binary64 float that the value reads as, if
    /// it reads as one.
    pub float_bits: Option<u64>,
}

/// One top-level key that an environment layer supplies.
pub struct EnvBinding {
    /// The key: the variable name without the prefix, lowercased.
    pub key: String,
    /// The full variable name that supplied the value.
    pub var: String,
    /// The typed value.
    pub value: ConfigValue,
}

pub open spec fn binding_view(b: EnvBinding) -> (Seq<char>, (Seq<char>, Tree)) {
    (b.key@, (b.var@, b.value@))
}

pub open spec fn bindings_view(s: Seq<EnvBinding>) -> Seq<(Seq<char>, (Seq<char>, Tree))> {
    s.map_values(|b: EnvBinding| binding_view(b))
}

/// `acc` with the first entry keyed `k` replaced by `v`, or `(k, v)`
/// appended when there is none.
pub open spec fn upsert<V>(acc: Seq<(Seq<char>, V)>, k: Seq<char>, v: V) -> Seq<(Seq<char>, V)> {
    match find_key(acc, k) {
        Some(i) => acc.update(i, (k, v)),
        None => acc.push((k, v)),
    }
}

/// The bindings that the variables `entries`, read in order, give an
/// environment layer with `prefix`: a variable whose name is not valid
/// Unicode, does not start with `prefix`, or is the bare prefix is
/// skipped; a matching variable whose value is not valid Unicode is an
/// error; any other is keyed by its name without the prefix, lowercased,
/// and a later variable with the same key replaces an earlier one.
pub open spec fn collect_env(prefix: Seq<char>, entries: Seq<EnvEntry>) -> Result<
    Seq<(Seq<char>, (Seq<char>, Tree))>,
    ConfigErrorView,
>
    decreases entries.len(),
{
    if entries.len() == 0 {
        Ok(Seq::empty())
    } else {
        let e = entries[entries.len() - 1];
        match collect_env(prefix, entries.subrange(0, entries.len() - 1)) {
            Err(err) => Err(err),
            Ok(acc) => match e.key {
                None => Ok(acc),
                Some(key) => if !has_prefix(key@, prefix) || key@.len() == prefix.len() {
                    Ok(acc)
                } else {
                    match e.value {
                        Err(m) => Err(ConfigErrorView::EnvVar { key: key@, message: m@ }),
                        Ok(text) => Ok(
                            upsert(
                                acc,
                                lowercase(key@.subrange(prefix.len() as int, key@.len() as int)),
                                (key@, infer_tree(text@, e.float_bits)),
                            ),
                        ),
                    }
                },
            },
        }
    }
}

/// Looking up a key after an upsert: the upserted key gives the new
/// value, every other key what it gave before.
pub proof fn lemma_lookup_upsert<V>(acc: Seq<(Seq<char>, V)>, k: Seq<char>, v: V, q: Seq<char>)
    ensures
        crate::value::lookup(upsert(acc, k, v), q) == if q == k {
            Some(v)
        } else {
            crate::value::lookup(acc, q)
        },
{
    lemma_find_key(acc, k);
    lemma_find_key(acc, q);
    match find_key(acc, k) {
        Some(i) => {
            crate::value::lemma_find_key_update(acc, i, v, q);
            if let Some(j) = find_key(acc, q) {
                if q != k {
                    assert(j != i);
                }
            }
        },
        None => {
            crate::value::lemma_find_key_push(acc, (k, v), q);
        },
    }
}

/// The top-level key that the variable `e` supplies to an environment
/// layer with `prefix`: its name without the prefix, lowercased, when the
/// name is valid Unicode, starts with the prefix and is longer than it.
pub open spec fn env_key(prefix: Seq<char>, e: EnvEntry) -> Option<Seq<char>> {
    match e.key {
        Some(k) => if has_prefix(k@, prefix) && k@.len() > prefix.len() {
            Some(lowercase(k@.subrange(prefix.len() as int, k@.len() as int)))
        } else {
            None
        },
        None => None,
    }
}

/// Every matching variable is bound: when the environment layer reads
/// without error, a variable that supplies a key (and that no later
/// variable supplying the same key overrides) is bound under that key to
/// its full name and its value typed by inference, whatever its value
/// text, the empty text included.
pub proof fn every_matching_variable_is_bound(prefix: Seq<char>, entries: Seq<EnvEntry>, i: int)
    requires
        collect_env(prefix, entries) is Ok,
        0 <= i < entries.len(),
        env_key(prefix, entries[i]) is Some,
        entries[i].value is Ok,
        forall|j: int| i < j < entries.len() ==> env_key(prefix, #[trigger] entries[j]) != env_key(prefix, entries[i]),
    ensures
        crate::value::lookup(collect_env(prefix, entries)->Ok_0, env_key(prefix, entries[i]).unwrap()) == Some(
            (entries[i].key.unwrap()@, infer_tree(entries[i].value.unwrap()@, entries[i].float_bits)),
        ),
    decreases entries.len(),
{
    let n = entries.len() - 1;
    let p = entries.subrange(0, n);
    let e = entries[n];
    let k = env_key(prefix, entries[i]).unwrap();
    match collect_env(prefix, p) {
        Err(_) => {},
        Ok(acc) => {
            if i < n {
                assert(p[i] == entries[i]);
                assert forall|j: int| i < j < p.len() implies env_key(prefix, #[trigger] p[j]) != env_key(prefix, p[i]) by {
                    assert(p[j] == entries[j]);
                }
                every_matching_variable_is_bound(prefix, p, i);
                if let Some(key) = e.key {
                    if has_prefix(key@, prefix) && key@.len() != prefix.len() {
                        if let Ok(text) = e.value {
                            assert(env_key(prefix, e) != env_key(prefix, entries[i]));
                            lemma_lookup_upsert(
                                acc,
                                lowercase(key@.subrange(prefix.len() as int, key@.len() as int)),
                                (key@, infer_tree(text@, e.float_bits)),
                                k,
                            );
                        }
                    }
                }
            } else {
                let key = e.key.unwrap();
                let text = e.value.unwrap();
                lemma_lookup_upsert(acc, k, (key@, infer_tree(text@, e.float_bits)), k);
            }
        },
    }
}

proof fn lemma_collect_env_err(prefix: Seq<char>, entries: Seq<EnvEntry>, n: int)
    requires
        0 <= n <= entries.len(),
        collect_env(prefix, entries.subrange(0, n)) is Err,
    ensures
        collect_env(prefix, entries) == collect_env(prefix, entries.subrange(0, n)),
    decreases entries.len() - n,
{
    if n < entries.len() {
        let next = entries.subrange(0, n + 1);
        assert(next.subrange(0, n) =~= entries.subrange(0, n));
        lemma_collect_env_err(prefix, entries, n + 1);
    } else {
        assert(entries.subrange(0, n) =~= entries);
    }
}

/// The position of the binding keyed `key`, if any.
fn find_binding(bindings: &Vec<EnvBinding>, key: &String) -> (r: Option<usize>)
    ensures
        match r {
            Some(i) => find_key(bindings_view(bindings@), key@) == Some(i as int),
            None => find_key(bindings_view(bindings@), key@) is None,
        },
{
    let n = bindings.len();
    let mut i: usize = 0;
    while i < n
        invariant
            n == bindings@.len(),
            0 <= i <= n,
            forall|j: int| 0 <= j < i ==> bindings_view(bindings@)[j].0 != key@,
        decreases n - i,
    {
        if same_text(bindings[i].key.as_str(), key.as_str()) {
            proof {
                crate::value::lemma_find_key_at(bindings_view(bindings@), key@, i as int);
            }
            return Some(i);
        }
        i = i + 1;
    }
    proof {
        crate::value::lemma_find_key_none(bindings_view(bindings@), key@);
    }
    None
}

/// Adds `binding` to `bindings`: it replaces the binding with the same key,
/// or is appended when there is none.
pub fn upsert_binding(bindings: &mut Vec<EnvBinding>, binding: EnvBinding)
    ensures
        bindings_view(final(bindings)@) == upsert(bindings_view(old(bindings)@), binding.key@, binding_view(binding).1),
{
    let ghost before = bindings@;
    let ghost bv = binding_view(binding);
    let found = find_binding(bindings, &binding.key);
    proof {
        lemma_find_key(bindings_view(before), binding.key@);
    }
    match found {
        Some(j) => {
            bindings.remove(j);
            bindings.insert(j, binding);
            proof {
                assert(bindings_view(bindings@) =~= bindings_view(before).update(j as int, bv));
            }
        },
        None => {
            bindings.push(binding);
            proof {
                assert(bindings_view(bindings@) =~= bindings_view(before).push(bv));
            }
        },
    }
}

/// Collects every variable of `entries` under `prefix` into top-level
/// bindings: the prefix is stripped and the remainder lowercased to form
/// the key (`APP_PORT` with prefix `APP_` becomes `port`), the value is
/// typed by [`infer`], and each binding keeps the full variable name that
/// supplied it.
pub fn collect(prefix: &str, entries: &Vec<EnvEntry>) -> (r: Result<Vec<EnvBinding>, ConfigError>)
    ensures
        match r {
            Ok(b) => collect_env(prefix@, entries@) == Ok::<_, ConfigErrorView>(bindings_view(b@)),
            Err(e) => collect_env(prefix@, entries@) == Err::<Seq<(Seq<char>, (Seq<char>, Tree))>, _>(e@),
        },
{
    let mut out: Vec<EnvBinding> = Vec::new();
    let n = entries.len();
    let mut i: usize = 0;
    proof {
        assert(entries@.subrange(0, 0) =~= Seq::<EnvEntry>::empty());
        assert(bindings_view(out@) =~= Seq::empty());
    }
    while i < n
        invariant
            n == entries@.len(),
            0 <= i <= n,
            collect_env(prefix@, entries@.subrange(0, i as int)) == Ok::<_, ConfigErrorView>(
                bindings_view(out@),
            ),
        decreases n - i,
    {
        let ghost next = entries@.subrange(0, i + 1);
        proof {
            assert(next.subrange(0, i as int) =~= entries@.subrange(0, i as int));
            assert(next[i as int] == entries@[i as int]);
        }
        let entry = &entries[i];
        match &entry.key {
            None => {},
            Some(key) => {
                match strip_prefix(key.as_str(), prefix) {
                    None => {},
                    Some(rest) => {
                        if rest.unicode_len() > 0 {
                            match &entry.value {
                                Err(message) => {
                                    let err = ConfigError::EnvVar {
                                        key: key.clone(),
                                        message: message.clone(),
                                    };
                                    proof {
                                        lemma_collect_env_err(prefix@, entries@, i + 1);
                                    }
                                    return Err(err);
                                },
                                Ok(text) => {
                                    let merged_key = to_lowercase(rest.as_str());
                                    let value = infer(text.as_str(), entry.float_bits);
                                    let binding = EnvBinding {
                                        key: merged_key,
                                        var: key.clone(),
                                        value,
                                    };
                                    upsert_binding(&mut out, binding);
                                },
                            }
                        }
                    },
                }
            },
        }
        i = i + 1;
    }
    proof {
        assert(entries@.subrange(0, n as int) =~= entries@);
    }
    Ok(out)
}

} // verus!
