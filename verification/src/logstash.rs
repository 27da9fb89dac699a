use vstd::prelude::*;
use vstd::string::StringExecFns;
use crate::value::{pairs_model, ValModel, Value};

verus! {

#[verifier::external_type_specification]
#[verifier::external_body]
pub struct ExGrokPattern(grok::Pattern);

#[verifier::external_type_specification]
#[verifier::external_body]
pub struct ExGrokError(grok::Error);

/// The text carried by a byte buffer, when it is valid UTF-8: a function of
/// the bytes alone.
pub uninterp spec fn utf8_chars(data: Seq<u8>) -> Option<Seq<char>>;

/// The pattern definitions added to a matcher builder beyond its default
/// set, in order.
pub uninterp spec fn grok_added(g: grok::Grok) -> Seq<(Seq<char>, Seq<char>)>;

/// Whether a builder holding the default set plus `added`, in that order,
/// accepts `definition`: a function of those alone.
pub uninterp spec fn grok_compiles_with(
    added: Seq<(Seq<char>, Seq<char>)>,
    definition: Seq<char>,
) -> bool;

/// Whether the matcher accepts `definition` over its default pattern set
/// alone.
pub open spec fn grok_compiles(definition: Seq<char>) -> bool {
    grok_compiles_with(Seq::empty(), definition)
}

/// The matcher compiled for `definition` over the default pattern set: a
/// function of the definition alone.
pub uninterp spec fn pattern_of(definition: Seq<char>) -> grok::Pattern;

/// The named captures a compiled matcher extracts from a text: the
/// (name, value) pairs of the groups that took part in the match, or `None`
/// when the text does not match; a function of matcher and text alone.
pub uninterp spec fn grok_caps(p: grok::Pattern, text: Seq<char>) -> Option<
    Seq<(Seq<char>, Seq<char>)>,
>;

/// The UTF-8 bytes of a text: a function of the characters alone.
pub uninterp spec fn chars_bytes(s: Seq<char>) -> Seq<u8>;

/// Relies on str::from_utf8: `Some` exactly on valid UTF-8, yielding the
/// decoded text.
#[verifier::external_body]
fn utf8_str(data: &Vec<u8>) -> (r: Option<String>)
    ensures
        match (r, utf8_chars(data@)) {
            (Some(s), Some(t)) => s@ == t,
            (None, None) => true,
            _ => false,
        },
{
    std::str::from_utf8(data).ok().map(|s| s.to_string())
}

/// Relies on str::as_bytes: the UTF-8 bytes of the text.
#[verifier::external_body]
fn str_bytes(s: &str) -> (r: Vec<u8>)
    ensures
        r@ == chars_bytes(s@),
{
    s.as_bytes().to_vec()
}

/// Relies on grok::Grok::compile over the crate's default pattern set:
/// compilation succeeds exactly for the definitions that set accepts, and
/// both that and the compiled matcher depend on the definition alone.
#[verifier::external_body]
fn grok_compile(definition: &str) -> (r: Result<grok::Pattern, grok::Error>)
    ensures
        r is Ok <==> grok_compiles(definition@),
        r matches Ok(p) ==> p == pattern_of(definition@),
{
    grok::Grok::default().compile(definition, true)
}

#[verifier::external_type_specification]
#[verifier::external_body]
pub struct ExGrok(grok::Grok);

/// Relies on grok::Grok::default: a fresh builder holding the default
/// pattern set, with nothing added yet.
#[verifier::external_body]
fn grok_new() -> (r: grok::Grok)
    ensures
        grok_added(r) == Seq::<(Seq<char>, Seq<char>)>::empty(),
{
    grok::Grok::default()
}

/// Relies on grok::Grok::add_pattern: registers one more named definition
/// on the builder.
#[verifier::external_body]
fn grok_add_pattern(g: &mut grok::Grok, name: &str, pattern: &str)
    ensures
        grok_added(*final(g)) == grok_added(*old(g)).push((name@, pattern@)),
{
    g.add_pattern(name, pattern);
}

/// Relies on grok::Grok::compile over the builder's accumulated set: `Ok`
/// exactly for the definitions that set accepts.
#[verifier::external_body]
fn grok_compile_in(g: &grok::Grok, definition: &str) -> (r: Result<grok::Pattern, grok::Error>)
    ensures
        r is Ok <==> grok_compiles_with(grok_added(*g), definition@),
{
    g.compile(definition, true)
}

/// Relies on grok::Pattern::match_against: the (name, value) pairs of the
/// named groups that took part in the match, in the matcher's order, or
/// `None` when the text does not match.
#[verifier::external_body]
fn grok_match(pattern: &grok::Pattern, text: &str) -> (r: Option<Vec<(String, String)>>)
    ensures
        match (r, grok_caps(*pattern, text@)) {
            (Some(v), Some(m)) => v.deep_view() == m,
            (None, None) => true,
            _ => false,
        },
{
    pattern.match_against(text).map(|m| {
        m.iter().map(|(k, v)| (k.to_string(), v.to_string())).collect()
    })
}

/// The record a capture list becomes: keys and values as UTF-8 bytes.
pub open spec fn caps_model(s: Seq<(String, String)>) -> Seq<(Seq<u8>, ValModel)> {
    Seq::new(s.len(), |i: int| (chars_bytes(s[i].0@), ValModel::Text(chars_bytes(s[i].1@))))
}

/// The record a match's captures become: keys and values as UTF-8 bytes.
pub open spec fn caps_record(caps: Seq<(Seq<char>, Seq<char>)>) -> Seq<(Seq<u8>, ValModel)> {
    Seq::new(caps.len(), |i: int| (chars_bytes(caps[i].0), ValModel::Text(chars_bytes(caps[i].1))))
}

/// Builds the structured record for a list of named captures.
#[verifier::loop_isolation(false)]
pub fn captures_to_value(pairs: &Vec<(String, String)>) -> (r: Value)
    ensures
        r@ == ValModel::Record(caps_model(pairs@)),
{
    let mut fields: Vec<(Vec<u8>, Value)> = Vec::new();
    let mut i: usize = 0;
    while i < pairs.len()
        invariant
            i <= pairs.len(),
            fields@.len() == i,
            pairs_model(fields@) =~= caps_model(pairs@).subrange(0, i as int),
        decreases pairs.len() - i,
    {
        let ghost fold = fields@;
        let k = str_bytes(pairs[i].0.as_str());
        let v = str_bytes(pairs[i].1.as_str());
        fields.push((k, Value::Text(v)));
        proof {
            crate::value::lemma_pairs_model(fold);
            crate::value::lemma_pairs_model(fields@);
            assert(fields@ =~= fold.push(fields@[fields@.len() - 1]));
            assert(pairs_model(fields@) =~= caps_model(pairs@).subrange(0, i + 1));
        }
        i = i + 1;
    }
    proof {
        assert(caps_model(pairs@).subrange(0, pairs@.len() as int) =~= caps_model(pairs@));
    }
    Value::Record(fields)
}

/// The error text for a definition the matcher rejects.
pub open spec fn compile_error_text(definition: Seq<char>) -> Seq<char> {
    "Failed to compile logstash grok pattern `"@ + definition + "`"@
}

/// Builds the error text for a definition the matcher rejects.
fn compile_error_message(definition: &str) -> (m: String)
    ensures
        m@ == compile_error_text(definition@),
{
    let mut m = "Failed to compile logstash grok pattern `".to_owned();
    m.append(definition);
    m.append("`");
    proof {
        assert(m@ =~= compile_error_text(definition@));
    }
    m
}

/// The error text for a log line nothing matched.
pub open spec fn no_match_text(text: Seq<char>) -> Seq<char> {
    "No match for log text: "@ + text
}

/// The error text for bytes that are not UTF-8.
pub open spec fn bad_utf8_text() -> Seq<char> {
    "log text is not UTF-8"@
}

/// A text decoder driven by a named-pattern matcher: an external
/// collaborator of the dataflow core, kept behind its compiled pattern.
pub struct GrokPattern {
    pub definition: String,
    pub pattern: grok::Pattern,
}

impl GrokPattern {
    /// Compiles a matcher for `definition` over the default pattern set:
    /// `Ok` exactly when the matcher accepts the definition, else an error
    /// naming it.
    pub fn new(definition: String) -> (r: Result<GrokPattern, String>)
        ensures
            match r {
                Ok(g) => grok_compiles(definition@) && g.definition@ == definition@ && g.pattern
                    == pattern_of(definition@),
                Err(m) => !grok_compiles(definition@) && m@ == compile_error_text(definition@),
            },
    {
        match grok_compile(definition.as_str()) {
            Ok(pattern) => Ok(GrokPattern { definition, pattern }),
            Err(_) => Err(compile_error_message(definition.as_str())),
        }
    }

    /// Matches one log line: exactly when the pattern matches the text, the
    /// captures as a structured record; an error naming the line when
    /// nothing matches; an error for bytes that are not text at all.
    pub fn matches(&self, data: Vec<u8>) -> (r: Result<Value, String>)
        ensures
            match utf8_chars(data@) {
                Option::None => r matches Err(m) && m@ == bad_utf8_text(),
                Option::Some(text) => match grok_caps(self.pattern, text) {
                    Option::Some(caps) => r matches Ok(v) && v@ == ValModel::Record(
                        caps_record(caps),
                    ),
                    Option::None => r matches Err(m) && m@ == no_match_text(text),
                },
            },
    {
        let text = match utf8_str(&data) {
            Some(t) => t,
            None => {
                let m = "log text is not UTF-8".to_owned();
                proof {
                    assert(m@ =~= bad_utf8_text());
                }
                return Err(m);
            },
        };
        match grok_match(&self.pattern, text.as_str()) {
            Some(pairs) => {
                proof {
                    let caps = grok_caps(self.pattern, text@).unwrap();
                    assert(caps_model(pairs@) =~= caps_record(caps)) by {
                        assert forall|i: int| 0 <= i < pairs@.len() implies caps_model(pairs@)[i]
                            == caps_record(caps)[i] by {
                            assert(pairs.deep_view()[i] == (pairs@[i].0@, pairs@[i].1@));
                            assert(caps[i] == pairs.deep_view()[i]);
                        }
                    }
                }
                Ok(captures_to_value(&pairs))
            },
            None => {
                let mut m = "No match for log text: ".to_owned();
                m.append(text.as_str());
                proof {
                    assert(m@ =~= no_match_text(text@));
                }
                Err(m)
            },
        }
    }
}

} // verus!

verus! {

use crate::codec::str_eq;

/// The line format of a patterns file: an alias, a space, its definition.
pub open spec fn tuple_pattern() -> Seq<char> {
    "%{NOTSPACE:alias} %{GREEDYDATA:pattern}"@
}

/// The capture holding a file line's alias.
pub open spec fn alias_name() -> Seq<char> {
    "alias"@
}

/// The capture holding a file line's definition.
pub open spec fn pattern_name() -> Seq<char> {
    "pattern"@
}

/// The error text for a file line whose alias or definition is missing.
pub open spec fn missing_part_text() -> Seq<char> {
    "Expected a non-NONE value"@
}

/// The error text for a patterns file with lines the recognizer rejects.
pub open spec fn bad_patterns_text() -> Seq<char> {
    "Bad patterns file"@
}

/// The first capture under `name`, if any.
pub open spec fn find_cap(caps: Seq<(Seq<char>, Seq<char>)>, name: Seq<char>) -> Option<Seq<char>>
    decreases caps.len(),
{
    if caps.len() == 0 {
        None
    } else if caps[0].0 == name {
        Some(caps[0].1)
    } else {
        find_cap(caps.subrange(1, caps.len() as int), name)
    }
}

/// Looks a capture up by name.
#[verifier::loop_isolation(false)]
fn find_capture(pairs: &Vec<(String, String)>, name: &str) -> (r: Option<String>)
    ensures
        match (r, find_cap(pairs.deep_view(), name@)) {
            (Some(s), Some(t)) => s@ == t,
            (None, None) => true,
            _ => false,
        },
{
    let ghost full = pairs.deep_view();
    let mut i: usize = 0;
    proof {
        assert(full.subrange(0, full.len() as int) =~= full);
    }
    while i < pairs.len()
        invariant
            i <= pairs.len(),
            find_cap(full, name@) == find_cap(
                full.subrange(i as int, full.len() as int),
                name@,
            ),
        decreases pairs.len() - i,
    {
        let ghost suf = full.subrange(i as int, full.len() as int);
        proof {
            assert(suf[0] == (pairs@[i as int].0@, pairs@[i as int].1@));
            assert(suf.subrange(1, suf.len() as int) =~= full.subrange(
                i as int + 1,
                full.len() as int,
            ));
        }
        if str_eq(pairs[i].0.as_str(), name) {
            return Some(pairs[i].1.clone());
        }
        i = i + 1;
    }
    proof {
        assert(full.subrange(full.len() as int, full.len() as int) =~= Seq::<(
            Seq<char>,
            Seq<char>,
        )>::empty());
    }
    None
}

/// Whether a patterns-file line is considered at all: blank lines and
/// comment lines are passed over.
pub open spec fn kept_line(l: Seq<char>) -> bool {
    l.len() > 0 && l[0] != '#'
}

/// The lines of a patterns file that are considered, in order.
pub open spec fn kept_lines(lines: Seq<Seq<char>>) -> Seq<Seq<char>>
    decreases lines.len(),
{
    if lines.len() == 0 {
        Seq::empty()
    } else {
        (if kept_line(lines[0]) {
            seq![lines[0]]
        } else {
            Seq::empty()
        }) + kept_lines(lines.subrange(1, lines.len() as int))
    }
}

/// The outcome of reading a patterns file's kept lines with the line
/// recognizer: the (alias, definition) pairs in order; or `Rejected` when
/// some line does not parse at all; or `Bad` when a line parses but lacks
/// its alias or definition.
pub enum PatternScan {
    Bad,
    Rejected,
    Defs(Seq<(Seq<char>, Seq<char>)>),
}

/// Folds the line recognizer over the kept lines.
pub open spec fn scan_lines(ls: Seq<Seq<char>>) -> PatternScan
    decreases ls.len(),
{
    if ls.len() == 0 {
        PatternScan::Defs(Seq::empty())
    } else {
        let rest = scan_lines(ls.subrange(1, ls.len() as int));
        match grok_caps(pattern_of(tuple_pattern()), ls[0]) {
            Option::Some(c) => match (find_cap(c, alias_name()), find_cap(c, pattern_name())) {
                (Option::Some(a), Option::Some(p)) => match rest {
                    PatternScan::Defs(ds) => PatternScan::Defs(seq![(a, p)] + ds),
                    other => other,
                },
                _ => PatternScan::Bad,
            },
            Option::None => match rest {
                PatternScan::Bad => PatternScan::Bad,
                _ => PatternScan::Rejected,
            },
        }
    }
}

/// Reads a patterns file's lines — blank and comment lines passed over,
/// every other line an alias and its definition — registers each definition
/// on a fresh builder, and compiles `definition` against the result. A line
/// that parses without both parts fails the whole read at once; lines the
/// recognizer rejects fail it after the scan; and the final compilation
/// succeeds exactly when the accumulated set accepts the definition.
#[verifier::loop_isolation(false)]
#[verifier::rlimit(100)]
pub fn compile_patterns(lines: &Vec<String>, definition: String) -> (r: Result<
    GrokPattern,
    String,
>)
    ensures
        !grok_compiles(tuple_pattern()) ==> (r matches Err(m) && m@ == compile_error_text(
            tuple_pattern(),
        )),
        grok_compiles(tuple_pattern()) ==> match scan_lines(kept_lines(lines.deep_view())) {
            PatternScan::Bad => r matches Err(m) && m@ == missing_part_text(),
            PatternScan::Rejected => r matches Err(m) && m@ == bad_patterns_text(),
            PatternScan::Defs(ds) => match r {
                Ok(g) => grok_compiles_with(ds, definition@) && g.definition@ == definition@,
                Err(m) => !grok_compiles_with(ds, definition@) && m@ == compile_error_text(
                    definition@,
                ),
            },
        },
{
    let recognizer = match grok_compile("%{NOTSPACE:alias} %{GREEDYDATA:pattern}") {
        Ok(p) => {
            proof {
                assert("%{NOTSPACE:alias} %{GREEDYDATA:pattern}"@ =~= tuple_pattern());
            }
            p
        },
        Err(_) => {
            proof {
                assert("%{NOTSPACE:alias} %{GREEDYDATA:pattern}"@ =~= tuple_pattern());
            }
            return Err(compile_error_message("%{NOTSPACE:alias} %{GREEDYDATA:pattern}"));
        },
    };
    let ghost big_l = lines.deep_view();
    let ghost full = scan_lines(kept_lines(big_l));
    let mut builder = grok_new();
    let mut rejected = false;
    let mut idx: usize = 0;
    proof {
        assert(big_l.subrange(0, big_l.len() as int) =~= big_l);
    }
    while idx < lines.len()
        invariant
            idx <= lines.len(),
            recognizer == pattern_of(tuple_pattern()),
            full == (match scan_lines(
                kept_lines(big_l.subrange(idx as int, big_l.len() as int)),
            ) {
                PatternScan::Bad => PatternScan::Bad,
                PatternScan::Rejected => PatternScan::Rejected,
                PatternScan::Defs(ds) => if rejected {
                    PatternScan::Rejected
                } else {
                    PatternScan::Defs(grok_added(builder) + ds)
                },
            }),
        decreases lines.len() - idx,
    {
        let ghost lsuf = big_l.subrange(idx as int, big_l.len() as int);
        proof {
            assert(lsuf[0] == big_l[idx as int]);
            assert(lsuf.subrange(1, lsuf.len() as int) =~= big_l.subrange(
                idx as int + 1,
                big_l.len() as int,
            ));
            assert(big_l[idx as int] == lines@[idx as int]@);
        }
        let line = &lines[idx];
        if line.as_str().is_empty() || line.as_str().get_char(0) == '#' {
            proof {
                assert(!kept_line(lsuf[0]));
                assert(kept_lines(lsuf) =~= kept_lines(
                    big_l.subrange(idx as int + 1, big_l.len() as int),
                ));
            }
            idx = idx + 1;
            continue;
        }
        proof {
            assert(kept_line(lsuf[0]));
            let krest = kept_lines(big_l.subrange(idx as int + 1, big_l.len() as int));
            assert(kept_lines(lsuf) =~= seq![lsuf[0]] + krest);
            assert((seq![lsuf[0]] + krest)[0] == lsuf[0]);
            assert((seq![lsuf[0]] + krest).subrange(
                1,
                (seq![lsuf[0]] + krest).len() as int,
            ) =~= krest);
        }
        match grok_match(&recognizer, line.as_str()) {
            Option::None => {
                rejected = true;
            },
            Option::Some(pairs) => {
                let alias = find_capture(&pairs, "alias");
                let pattern = find_capture(&pairs, "pattern");
                proof {
                    assert("alias"@ =~= alias_name());
                    assert("pattern"@ =~= pattern_name());
                }
                match (alias, pattern) {
                    (Some(a), Some(pt)) => {
                        let ghost before = grok_added(builder);
                        grok_add_pattern(&mut builder, a.as_str(), pt.as_str());
                        proof {
                            let caps = grok_caps(
                                pattern_of(tuple_pattern()),
                                lsuf[0],
                            ).unwrap();
                            assert(find_cap(caps, alias_name()) == Some(a@));
                            assert(find_cap(caps, pattern_name()) == Some(pt@));
                            assert(grok_added(builder) =~= before.push((a@, pt@)));
                            match scan_lines(
                                kept_lines(big_l.subrange(idx as int + 1, big_l.len() as int)),
                            ) {
                                PatternScan::Defs(ds2) => {
                                    assert(before + (seq![(a@, pt@)] + ds2) =~= (before.push(
                                        (a@, pt@),
                                    )) + ds2);
                                },
                                _ => {},
                            }
                        }
                    },
                    _ => {
                        let m = "Expected a non-NONE value".to_owned();
                        proof {
                            assert(m@ =~= missing_part_text());
                        }
                        return Err(m);
                    },
                }
            },
        }
        idx = idx + 1;
    }
    proof {
        assert(big_l.subrange(big_l.len() as int, big_l.len() as int) =~= Seq::<
            Seq<char>,
        >::empty());
        assert(kept_lines(Seq::<Seq<char>>::empty()) =~= Seq::<Seq<char>>::empty());
        if !rejected {
            assert(grok_added(builder) + Seq::<(Seq<char>, Seq<char>)>::empty() =~= grok_added(
                builder,
            ));
        }
    }
    if rejected {
        let m = "Bad patterns file".to_owned();
        proof {
            assert(m@ =~= bad_patterns_text());
        }
        return Err(m);
    }
    match grok_compile_in(&builder, definition.as_str()) {
        Ok(pattern) => Ok(GrokPattern { definition, pattern }),
        Err(_) => Err(compile_error_message(definition.as_str())),
    }
}

} // verus!
