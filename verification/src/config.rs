//! Resolved run configuration: which columns form the key, the delimiter
//! mode, the occurrence-tracking mode, and the ordered list of inputs.

use vstd::prelude::*;
use vstd::string::StringSliceAdditionalSpecFns;

verus! {

/// A configuration problem detected before any record is processed.
#[derive(Debug, Clone, Copy, PartialEq, Eq, Structural)]
pub enum ConfigError {
    /// A field token is not a positive integer (zero included).
    InvalidField,
    /// The field specification holds no fields at all.
    EmptySpecification,
    /// Standard input appears more than once among the inputs.
    StdinUsedTwice,
}

/// Resolved configuration for one run of the dedup engine.
pub struct Config {
    /// Ordered input names; empty means standard input, and the name
    /// `-` stands for standard input as well.
    pub inputs: Vec<String>,
    /// Zero-indexed columns whose bytes form the dedup key.
    pub fields: Vec<usize>,
    /// Assume equal-keyed records are contiguous and compare only
    /// against the previous record's key.
    pub sorted: bool,
    /// Split fields on whitespace runs instead of single tab bytes.
    pub whitespace: bool,
}

impl Config {
    /// A default configuration: stdin, key = first column, unsorted,
    /// tab-delimited.
    pub fn new() -> (c: Config)
        ensures
            c.inputs@ =~= Seq::<String>::empty(),
            c.fields@ =~= seq![0usize],
            !c.sorted,
            !c.whitespace,
    {
        Config {
            inputs: Vec::new(),
            fields: vec![0],
            sorted: false,
            whitespace: false,
        }
    }

    /// Append one input name to the list of inputs.
    pub fn add_input(self, input: &str) -> (c: Config)
        ensures
            c.inputs.deep_view() =~= self.inputs.deep_view().push(input@),
            c.fields@ == self.fields@,
            c.sorted == self.sorted,
            c.whitespace == self.whitespace,
    {
        let mut c = self;
        c.inputs.push(input.to_owned());
        c
    }

    /// Replace the field specification with the given column list.
    pub fn fields(self, fields: &[usize]) -> (c: Config)
        ensures
            c.fields@ == fields@,
            c.inputs == self.inputs,
            c.sorted == self.sorted,
            c.whitespace == self.whitespace,
    {
        let mut c = self;
        c.fields = vstd::slice::slice_to_vec(fields);
        c
    }

    /// Select sorted (adjacent-compare) or unsorted (full-history) mode.
    pub fn sorted(self, yes: bool) -> (c: Config)
        ensures
            c.sorted == yes,
            c.inputs == self.inputs,
            c.fields@ == self.fields@,
            c.whitespace == self.whitespace,
    {
        let mut c = self;
        c.sorted = yes;
        c
    }

    /// Select whitespace-run or single-tab field delimiting.
    pub fn whitespace(self, yes: bool) -> (c: Config)
        ensures
            c.whitespace == yes,
            c.inputs == self.inputs,
            c.fields@ == self.fields@,
            c.sorted == self.sorted,
    {
        let mut c = self;
        c.whitespace = yes;
        c
    }
}

/// A decimal digit byte.
pub open spec fn is_digit(b: u8) -> bool {
    0x30 <= b && b <= 0x39
}

/// The decimal value of a digit string.
pub open spec fn token_val(t: Seq<u8>) -> int
    decreases t.len(),
{
    if t.len() == 0 {
        0
    } else {
        10 * token_val(t.drop_last()) + t.last() - 0x30
    }
}

/// Every byte of the token is a decimal digit.
pub open spec fn all_digits(t: Seq<u8>) -> bool {
    forall|k: int| 0 <= k < t.len() ==> is_digit(#[trigger] t[k])
}

/// A token names a field: a non-empty digit string whose value is
/// positive and representable.
pub open spec fn valid_token(t: Seq<u8>) -> bool {
    t.len() > 0 && all_digits(t) && 1 <= token_val(t) <= usize::MAX
}

/// The comma-separated tokens of a field specification. An empty
/// specification gives one empty token; every comma closes a token.
pub open spec fn comma_tokens(s: Seq<u8>) -> Seq<Seq<u8>>
    decreases s.len(),
{
    if s.len() == 0 {
        seq![Seq::<u8>::empty()]
    } else {
        let rest = comma_tokens(s.drop_last());
        if s.last() == 0x2C {
            rest.push(Seq::<u8>::empty())
        } else {
            rest.update(rest.len() - 1, rest.last().push(s.last()))
        }
    }
}

/// Every token of the specification names a field.
pub open spec fn all_tokens_valid(s: Seq<u8>) -> bool {
    forall|k: int|
        0 <= k < comma_tokens(s).len() ==> valid_token(#[trigger] comma_tokens(s)[k])
}

/// The sequence is strictly ascending.
pub open spec fn strictly_increasing(s: Seq<usize>) -> bool {
    forall|p: int, q: int| #![trigger s[p], s[q]] 0 <= p < q < s.len() ==> s[p] < s[q]
}

/// Some token of the specification names the zero-indexed column `x`.
pub open spec fn has_field_index(s: Seq<u8>, x: usize) -> bool {
    exists|m: int|
        0 <= m < comma_tokens(s).len() && token_val(#[trigger] comma_tokens(s)[m]) - 1 == x
}

/// Once a prefix's value is large, the whole token's value never
/// shrinks back into range.
proof fn lemma_token_val_grows(t: Seq<u8>, i: int)
    requires
        0 <= i <= t.len(),
        token_val(t.take(i)) > 0xFFFF,
    ensures
        token_val(t) >= token_val(t.take(i)),
    decreases t.len() - i,
{
    if i == t.len() {
        assert(t.take(i) =~= t);
    } else {
        assert(t.take(i + 1).drop_last() =~= t.take(i));
        assert(t.take(i + 1).last() == t[i]);
        assert(token_val(t.take(i + 1)) == 10 * token_val(t.take(i)) + t[i] - 0x30);
        assert(token_val(t.take(i + 1)) >= token_val(t.take(i)));
        lemma_token_val_grows(t, i + 1);
    }
}

/// Read a token as a decimal number, refusing non-digits and values
/// beyond the representable range.
fn token_value(t: &Vec<u8>) -> (r: Option<usize>)
    ensures
        match r {
            Some(v) => t@.len() > 0 && all_digits(t@) && token_val(t@) == v,
            None => !(t@.len() > 0 && all_digits(t@) && token_val(t@) <= usize::MAX),
        },
{
    if t.len() == 0 {
        return Option::None;
    }
    let mut val: usize = 0;
    let mut i: usize = 0;
    while i < t.len()
        invariant
            i <= t.len(),
            t@.len() > 0,
            all_digits(t@.take(i as int)),
            val == token_val(t@.take(i as int)),
        decreases t.len() - i,
    {
        let b = t[i];
        proof {
            assert(t@.take(i as int + 1).drop_last() =~= t@.take(i as int));
            assert(t@.take(i as int + 1).last() == t@[i as int]);
        }
        if b < 0x30 || b > 0x39 {
            return Option::None;
        }
        let d = (b - 0x30) as usize;
        let next = match val.checked_mul(10) {
            Option::Some(m) => m.checked_add(d),
            Option::None => Option::None,
        };
        match next {
            Option::Some(nv) => {
                val = nv;
            },
            Option::None => {
                proof {
                    assert(token_val(t@.take(i as int + 1)) > usize::MAX);
                    lemma_token_val_grows(t@, i as int + 1);
                }
                return Option::None;
            },
        }
        i = i + 1;
    }
    proof {
        assert(t@.take(t@.len() as int) =~= t@);
    }
    Option::Some(val)
}

/// Split a field specification into its comma-separated tokens.
fn split_commas(bytes: &[u8]) -> (ts: Vec<Vec<u8>>)
    ensures
        crate::records::views_of(ts@) == comma_tokens(bytes@),
        ts@.len() >= 1,
{
    let mut ts: Vec<Vec<u8>> = Vec::new();
    ts.push(Vec::new());
    proof {
        assert(crate::records::views_of(ts@) =~= comma_tokens(bytes@.take(0)));
    }
    let mut i: usize = 0;
    while i < bytes.len()
        invariant
            i <= bytes.len(),
            ts@.len() >= 1,
            crate::records::views_of(ts@) =~= comma_tokens(bytes@.take(i as int)),
        decreases bytes.len() - i,
    {
        let b = bytes[i];
        proof {
            assert(bytes@.take(i as int + 1).drop_last() =~= bytes@.take(i as int));
            assert(bytes@.take(i as int + 1).last() == bytes@[i as int]);
        }
        if b == 0x2C {
            ts.push(Vec::new());
        } else {
            let mut last = ts.pop().unwrap();
            last.push(b);
            ts.push(last);
        }
        proof {
            assert(crate::records::views_of(ts@) =~= comma_tokens(bytes@.take(i as int + 1)));
        }
        i = i + 1;
    }
    proof {
        assert(bytes@.take(bytes@.len() as int) =~= bytes@);
    }
    ts
}

/// Put a column index into its place in an ascending, duplicate-free
/// list, or leave the list alone if the index is already there.
fn insert_sorted(v: &mut Vec<usize>, x: usize)
    requires
        strictly_increasing(old(v)@),
    ensures
        strictly_increasing(final(v)@),
        forall|y: usize| final(v)@.contains(y) <==> (old(v)@.contains(y) || y == x),
{
    let mut p: usize = 0;
    while p < v.len() && v[p] < x
        invariant
            p <= v.len(),
            v@ == old(v)@,
            forall|q: int| 0 <= q < p ==> v@[q] < x,
        decreases v.len() - p,
    {
        p = p + 1;
    }
    if p < v.len() && v[p] == x {
        proof {
            assert(v@.contains(x));
            assert(forall|y: usize| v@.contains(y) <==> (old(v)@.contains(y) || y == x));
        }
        return ;
    }
    let ghost before = v@;
    v.insert(p, x);
    proof {
        before.insert_ensures(p as int, x);
        assert(p < before.len() ==> before[p as int] > x);
        assert forall|a: int, b: int|
            #![trigger v@[a], v@[b]]
            0 <= a < b < v@.len() implies v@[a] < v@[b] by {
            let pp = p as int;
            if a < pp && b == pp {
                assert(v@[a] == before[a] && v@[b] == x);
            } else if a < pp && b > pp {
                assert(v@[a] == before[a] && v@[b] == before[b - 1]);
                assert(a < pp <= b - 1);
                assert(before[a] < before[b - 1]);
            } else if a == pp && b > pp {
                assert(v@[a] == x && v@[b] == before[b - 1]);
                assert(b - 1 >= pp);
                if b - 1 == pp {
                    assert(before[pp] > x);
                } else {
                    assert(before[pp] < before[b - 1]);
                    assert(before[pp] > x);
                }
            } else if a > pp {
                assert(v@[a] == before[a - 1] && v@[b] == before[b - 1]);
            } else {
                assert(a < pp && b < pp);
                assert(v@[a] == before[a] && v@[b] == before[b]);
            }
        }
        assert forall|y: usize| v@.contains(y) <==> (before.contains(y) || y == x) by {
            let pp = p as int;
            if v@.contains(y) {
                let idx = choose|idx: int| 0 <= idx < v@.len() && v@[idx] == y;
                if idx < pp {
                    assert(before[idx] == y);
                } else if idx == pp {
                    assert(y == x);
                } else {
                    assert(before[idx - 1] == y);
                }
            }
            if before.contains(y) {
                let idx = choose|idx: int| 0 <= idx < before.len() && before[idx] == y;
                if idx < pp {
                    assert(v@[idx] == y);
                } else {
                    assert(v@[idx + 1] == y);
                }
            }
            if y == x {
                assert(v@[pp] == y);
            }
        }
    }
}

/// Read a user-facing field specification: a comma-separated list of
/// 1-indexed positive column numbers. The result is the 0-indexed,
/// ascending, duplicate-free column list; an empty specification and
/// any token that is not a positive representable number are refused.
pub fn parse_field_spec(arg: &str) -> (r: Result<Vec<usize>, ConfigError>)
    ensures
        match r {
            Ok(v) => {
                &&& arg.spec_bytes().len() > 0
                &&& all_tokens_valid(arg.spec_bytes())
                &&& strictly_increasing(v@)
                &&& forall|x: usize| v@.contains(x) <==> has_field_index(arg.spec_bytes(), x)
            },
            Err(e) => {
                &&& (e == ConfigError::EmptySpecification || e == ConfigError::InvalidField)
                &&& ((e == ConfigError::EmptySpecification) <==> arg.spec_bytes().len() == 0)
                &&& ((e == ConfigError::InvalidField) <==> (arg.spec_bytes().len() > 0
                    && !all_tokens_valid(arg.spec_bytes())))
            },
        },
{
    let bytes = arg.as_bytes();
    if bytes.len() == 0 {
        return Result::Err(ConfigError::EmptySpecification);
    }
    let tokens = split_commas(bytes);
    let ghost toks = comma_tokens(arg.spec_bytes());
    let mut result: Vec<usize> = Vec::new();
    let mut k: usize = 0;
    while k < tokens.len()
        invariant
            k <= tokens.len(),
            arg.spec_bytes().len() > 0,
            bytes@ == arg.spec_bytes(),
            toks == comma_tokens(arg.spec_bytes()),
            crate::records::views_of(tokens@) == toks,
            forall|m: int| 0 <= m < k ==> valid_token(#[trigger] toks[m]),
            strictly_increasing(result@),
            forall|y: usize|
                result@.contains(y) <==> exists|m: int|
                    0 <= m < k && token_val(#[trigger] toks[m]) - 1 == y,
        decreases tokens.len() - k,
    {
        proof {
            assert(toks[k as int] == tokens@[k as int]@);
        }
        let ghost old_result = result@;
        match token_value(&tokens[k]) {
            Option::None => {
                proof {
                    assert(!valid_token(toks[k as int]));
                }
                return Result::Err(ConfigError::InvalidField);
            },
            Option::Some(v) => {
                if v == 0 {
                    proof {
                        assert(!valid_token(toks[k as int]));
                    }
                    return Result::Err(ConfigError::InvalidField);
                }
                insert_sorted(&mut result, v - 1);
                proof {
                    assert(valid_token(toks[k as int]));
                    assert forall|y: usize|
                        result@.contains(y) <==> exists|m: int|
                            0 <= m < k as int + 1 && token_val(#[trigger] toks[m]) - 1 == y by {
                        if result@.contains(y) {
                            if old_result.contains(y) {
                                let m = choose|m: int|
                                    0 <= m < k as int && token_val(#[trigger] toks[m]) - 1 == y;
                                assert(0 <= m < k as int + 1 && token_val(toks[m]) - 1 == y);
                            } else {
                                assert(y == (v - 1) as usize);
                                assert(token_val(toks[k as int]) - 1 == y);
                            }
                        }
                        if exists|m: int|
                            0 <= m < k as int + 1 && token_val(#[trigger] toks[m]) - 1 == y {
                            let m = choose|m: int|
                                0 <= m < k as int + 1 && token_val(#[trigger] toks[m]) - 1 == y;
                            if m < k as int {
                                assert(old_result.contains(y));
                            } else {
                                assert(y == (v - 1) as usize);
                            }
                        }
                    }
                }
            },
        }
        k = k + 1;
    }
    proof {
        assert(forall|y: usize|
            result@.contains(y) <==> has_field_index(arg.spec_bytes(), y));
    }
    Result::Ok(result)
}

/// The name that selects standard input.
pub open spec fn is_stdin_name(s: Seq<char>) -> bool {
    s == "-"@
}

/// How many of the input names select standard input.
pub open spec fn count_stdin(names: Seq<Seq<char>>) -> int
    decreases names.len(),
{
    if names.len() == 0 {
        0
    } else {
        count_stdin(names.drop_last()) + if is_stdin_name(names.last()) {
            1int
        } else {
            0int
        }
    }
}

impl Config {
    /// The inputs one run reads, in order: the configured list, or
    /// standard input alone when the list is empty. Refused when
    /// standard input is asked for more than once.
    pub fn resolved_inputs(&self) -> (r: Result<Vec<String>, ConfigError>)
        ensures
            match r {
                Ok(v) => {
                    &&& count_stdin(v.deep_view()) <= 1
                    &&& if self.inputs@.len() == 0 {
                        v.deep_view() =~= seq!["-"@]
                    } else {
                        v.deep_view() == self.inputs.deep_view()
                    }
                },
                Err(e) => e == ConfigError::StdinUsedTwice,
            },
            (r is Err) <==> count_stdin(self.inputs.deep_view()) >= 2,
    {
        let ghost dv = self.inputs.deep_view();
        if self.inputs.len() == 0 {
            proof {
                assert(dv.len() == 0);
                let single = seq!["-"@];
                assert(single.drop_last() =~= Seq::<Seq<char>>::empty());
                assert(count_stdin(Seq::<Seq<char>>::empty()) == 0);
                assert(single.len() == 1);
                assert(count_stdin(single) == count_stdin(single.drop_last()) + if is_stdin_name(
                    single.last(),
                ) {
                    1int
                } else {
                    0int
                });
                assert(count_stdin(single) <= 1);
            }
            let mut v: Vec<String> = Vec::new();
            v.push("-".to_owned());
            proof {
                assert(v.deep_view() =~= seq!["-"@]);
            }
            return Result::Ok(v);
        }
        let dash: String = "-".to_owned();
        let mut c: usize = 0;
        let mut i: usize = 0;
        while i < self.inputs.len()
            invariant
                i <= self.inputs.len(),
                dv == self.inputs.deep_view(),
                dash@ == "-"@,
                c <= i,
                c == count_stdin(dv.take(i as int)),
            decreases self.inputs.len() - i,
        {
            proof {
                assert(dv.take(i as int + 1).drop_last() =~= dv.take(i as int));
                assert(dv.take(i as int + 1).last() == dv[i as int]);
                assert(dv[i as int] == self.inputs@[i as int]@);
            }
            if self.inputs[i] == dash {
                c = c + 1;
            }
            i = i + 1;
        }
        proof {
            assert(dv.take(dv.len() as int) =~= dv);
        }
        if c >= 2 {
            return Result::Err(ConfigError::StdinUsedTwice);
        }
        let mut v: Vec<String> = Vec::new();
        let mut i: usize = 0;
        while i < self.inputs.len()
            invariant
                i <= self.inputs.len(),
                dv == self.inputs.deep_view(),
                v.deep_view() =~= dv.take(i as int),
            decreases self.inputs.len() - i,
        {
            proof {
                assert(dv[i as int] == self.inputs@[i as int]@);
            }
            let ghost prev = v.deep_view();
            let name = self.inputs[i].clone();
            proof {
                assert(name@ == self.inputs@[i as int]@);
            }
            v.push(name);
            proof {
                assert(v.deep_view().len() == prev.len() + 1);
                assert(forall|j: int|
                    0 <= j < prev.len() ==> v.deep_view()[j] == v@[j].deep_view());
                assert(v.deep_view()[prev.len() as int] == name.deep_view());
                assert(name.deep_view() == name@);
                assert(v.deep_view() =~= dv.take(i as int + 1));
            }
            i = i + 1;
        }
        proof {
            assert(dv.take(dv.len() as int) =~= dv);
            assert(v.deep_view() == dv);
        }
        Result::Ok(v)
    }
}

} // verus!
