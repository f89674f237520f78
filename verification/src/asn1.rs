//! Extraction and resolution of named OID definitions from ASN.1
//! module text.
//!
//! The text is scanned with regular expressions; what each scan
//! returns is named by an uninterpreted function and trusted, while
//! the alias resolution and the assembly of dotted strings are
//! verified against those names.

use vstd::prelude::*;
use vstd::string::StringExecFns;

use regex::Regex;

verus! {

/// Every character is a letter, a digit or `-`: the alphabet of the
/// alias pattern, whose members are literals in a regular expression.
pub open spec fn plain_name_chars(s: Seq<char>) -> bool {
    forall|i: int|
        0 <= i < s.len() ==> ((97 <= s[i] as u32 && s[i] as u32 <= 122) || (65 <= s[i] as u32
            && s[i] as u32 <= 90) || (48 <= s[i] as u32 && s[i] as u32 <= 57) || s[i] == '-')
}

/// The aliases declared as `name ::= OBJECT IDENTIFIER`, in match
/// order, duplicates included.
pub uninterp spec fn alias_names_of(s: Seq<char>) -> Seq<Seq<char>>;

/// The text with each typed use of `alias` rewritten to a plain
/// `OBJECT IDENTIFIER` definition.
pub uninterp spec fn alias_replaced(s: Seq<char>, alias: Seq<char>) -> Seq<char>;

/// The name, optional base name, and arc-list text of each
/// `name OBJECT IDENTIFIER ::= { ... }` definition of the text, in
/// match order.
pub uninterp spec fn defs_of(s: Seq<char>) -> Seq<(Seq<char>, Option<Seq<char>>, Seq<char>)>;

/// The decimal arc tokens of one arc-list text, in order.
pub uninterp spec fn arc_tokens_of(t: Seq<char>) -> Seq<Seq<char>>;

/// Relies on regex::Regex::captures_iter with a fixed pattern: the
/// result depends on the text alone, and every captured name is drawn
/// from the pattern's `[a-zA-Z0-9-]*` group.
#[verifier::external_body]
fn alias_names(s: &str) -> (r: Vec<String>)
    ensures
        r.deep_view() == alias_names_of(s@),
        forall|i: int| 0 <= i < r.deep_view().len() ==> plain_name_chars(r.deep_view()[i]),
{
    let re = Regex::new(r"(?P<alias>[a-zA-Z0-9-]*)\s+::=\s+OBJECT\s+IDENTIFIER\n").unwrap();
    re.captures_iter(s).map(|c| c["alias"].to_string()).collect()
}

/// Relies on regex::Regex::replace_all with a pattern built from the
/// alias: the result depends on the two texts alone.  The requires
/// keeps the interpolated pattern well-formed — letters, digits and
/// `-` are literals outside a character class — and the body is total
/// anyway: should the pattern still be refused (an alias so long that
/// the compiled form exceeds the regex size limit), the text is
/// returned unchanged, which is again a function of the two texts, so
/// the call never panics.
#[verifier::external_body]
fn replace_alias_refs(s: &str, alias: &str) -> (r: String)
    requires
        plain_name_chars(alias@),
    ensures
        r@ == alias_replaced(s@, alias@),
{
    let f = format!("(?P<ty>[a-z][a-zA-Z0-9-]+)[ ]+(?P<a>{alias})");
    match Regex::new(&f) {
        Ok(re) => re.replace_all(s, "$ty OBJECT IDENTIFIER").to_string(),
        Err(_) => s.to_string(),
    }
}

/// Relies on regex::Regex::find_iter and captures with a fixed
/// pattern: the result depends on the text alone.  Each match is
/// split in the same pass, so no part of the crate ever re-runs the
/// pattern on text that might not match: the inner captures call is
/// on the matched text itself, which the anchor-free pattern matches
/// again.
#[verifier::external_body]
fn oid_defs(s: &str) -> (r: Vec<(String, Option<String>, String)>)
    ensures
        r.deep_view() == defs_of(s@),
{
    let re = Regex::new(
        r"(?P<name>[a-zA-Z][a-zA-Z0-9-]*)\s+OBJECT\s+IDENTIFIER\s*::=\s*\{\s*(?P<base>[a-zA-Z][a-zA-Z0-9-]*\s*)??(?P<tail>(?:(?:[a-zA-Z][a-zA-Z0-9-]*\([0-9]+\)\s*)|(?:[0-9]+\s*))*)\}",
    ).unwrap();
    re.find_iter(s).map(|m| {
        let caps = re.captures(m.as_str()).unwrap();
        let name = caps.name("name").unwrap().as_str().trim().to_string();
        let base = caps.name("base").map(|b| b.as_str().trim().to_string());
        let tail = caps.name("tail").map(|t| t.as_str().to_string()).unwrap_or_default();
        (name, base, tail)
    }).collect()
}

/// Relies on regex::Regex::find_iter and captures with a fixed
/// pattern: the result depends on the arc-list text alone.  The inner
/// calls cannot fail: a found match re-matches standalone, and one of
/// the two groups participates in any match of the alternation.
#[verifier::external_body]
fn arc_tokens(t: &str) -> (r: Vec<String>)
    ensures
        r.deep_view() == arc_tokens_of(t@),
{
    let re = Regex::new(r"(?:[a-zA-Z][a-zA-Z0-9-]*\(([0-9]+)\))|(?:([0-9]+))").unwrap();
    re.find_iter(t).map(|m| {
        let c = re.captures(m.as_str()).unwrap();
        c.get(1).unwrap_or_else(|| c.get(2).unwrap()).as_str().to_string()
    }).collect()
}

/// One extracted definition: `name ::= { base? tail? }`.
#[derive(Clone, Debug)]
pub struct Def {
    pub name: String,
    pub base: Option<String>,
    pub tail: Option<String>,
}

/// The text folded through every alias replacement from position `i`
/// on.
pub open spec fn fold_from(s: Seq<char>, names: Seq<Seq<char>>, i: int) -> Seq<char>
    decreases names.len() - i,
{
    if i < 0 || i >= names.len() {
        s
    } else {
        fold_from(alias_replaced(s, names[i]), names, i + 1)
    }
}

/// The dot-joined arc tokens.
pub open spec fn dot_joined(toks: Seq<Seq<char>>) -> Seq<char>
    decreases toks.len(),
{
    if toks.len() == 0 {
        Seq::empty()
    } else if toks.len() == 1 {
        toks.first()
    } else {
        toks.first() + seq!['.'] + dot_joined(toks.drop_first())
    }
}

proof fn lemma_dot_joined_push(toks: Seq<Seq<char>>, t: Seq<char>)
    ensures
        dot_joined(toks.push(t)) == if toks.len() == 0 {
            t
        } else {
            dot_joined(toks) + seq!['.'] + t
        },
    decreases toks.len(),
{
    if toks.len() == 0 {
        assert(toks.push(t).len() == 1);
        assert(toks.push(t).first() == t);
    } else if toks.len() == 1 {
        assert(toks.push(t).first() == toks.first());
        assert(toks.push(t).drop_first() =~= seq![t]);
        assert(dot_joined(seq![t]) == t);
        assert(dot_joined(toks.push(t)) =~= dot_joined(toks) + seq!['.'] + t);
    } else {
        assert(toks.push(t).first() == toks.first());
        assert(toks.push(t).drop_first() =~= toks.drop_first().push(t));
        lemma_dot_joined_push(toks.drop_first(), t);
        assert(dot_joined(toks.push(t)) =~= dot_joined(toks) + seq!['.'] + t);
    }
}

/// The dotted tail of one definition, from its arc-list text: absent
/// when no arc token follows the base.
pub open spec fn tail_of_def(t: Seq<char>) -> Option<Seq<char>> {
    if arc_tokens_of(t).len() == 0 {
        None
    } else {
        Some(dot_joined(arc_tokens_of(t)))
    }
}

/// The governing definition for a name: the last one, as in a map
/// that each definition is inserted into in match order.
pub open spec fn lookup_def(defs: Seq<Def>, name: Seq<char>) -> Option<Def>
    decreases defs.len(),
{
    if defs.len() == 0 {
        None
    } else if defs.last().name@ == name {
        Some(defs.last())
    } else {
        lookup_def(defs.drop_last(), name)
    }
}

/// The governing base-table tail for a name: again the last entry.
pub open spec fn lookup_root(roots: Seq<(String, String)>, name: Seq<char>) -> Option<Seq<char>>
    decreases roots.len(),
{
    if roots.len() == 0 {
        None
    } else if roots.last().0@ == name {
        Some(roots.last().1@)
    } else {
        lookup_root(roots.drop_last(), name)
    }
}

/// The dotted string a name resolves to, chasing base aliases with
/// bounded fuel: a chain longer than the number of definitions must
/// revisit a name, so it can never resolve.
pub open spec fn resolve_spec(
    defs: Seq<Def>,
    roots: Seq<(String, String)>,
    name: Seq<char>,
    fuel: nat,
) -> Option<Seq<char>>
    decreases fuel,
{
    match lookup_root(roots, name) {
        Some(t) => Some(t),
        None => match lookup_def(defs, name) {
            None => None,
            Some(d) => match d.base {
                None => match d.tail {
                    Some(t) => Some(t@),
                    None => None,
                },
                Some(b) => if fuel == 0 {
                    None
                } else {
                    match resolve_spec(defs, roots, b@, (fuel - 1) as nat) {
                        None => None,
                        Some(bt) => match d.tail {
                            Some(t) => Some(bt + seq!['.'] + t@),
                            None => Some(bt),
                        },
                    }
                },
            },
        },
    }
}

/// Does some definition name `name` as its base?
pub open spec fn used_as_base(defs: Seq<Def>, name: Seq<char>) -> bool {
    exists|j: int|
        0 <= j < defs.len() && defs[j].base.deep_view() == Some::<Seq<char>>(name)
}

/// Is the definition at `i` shadowed by a later one of the same name?
pub open spec fn shadowed(defs: Seq<Def>, i: int) -> bool {
    exists|j: int| i < j < defs.len() && defs[j].name@ == defs[i].name@
}

/// The resolved `(name, dotted string)` pairs of the definitions from
/// position `i` on that govern their name and that no other
/// definition extends.
pub open spec fn iter_spec(defs: Seq<Def>, roots: Seq<(String, String)>, i: int) -> Seq<
    (Seq<char>, Seq<char>),
>
    decreases defs.len() - i,
{
    if i < 0 || i >= defs.len() {
        Seq::empty()
    } else {
        let rest = iter_spec(defs, roots, i + 1);
        if !shadowed(defs, i) && !used_as_base(defs, defs[i].name@) && resolve_spec(
            defs,
            roots,
            defs[i].name@,
            defs.len() as nat,
        ) is Some {
            seq![
                (defs[i].name@, resolve_spec(defs, roots, defs[i].name@, defs.len() as nat)->Some_0),
            ] + rest
        } else {
            rest
        }
    }
}

/// Scrapes ASN.1 module text for named OID definitions and resolves
/// the inheritance tree of aliases into flat dotted strings.
#[derive(Clone, Debug)]
pub struct Asn1Parser {
    pub defs: Vec<Def>,
    pub roots: Vec<(String, String)>,
}

impl Asn1Parser {
    /// Scans the text: aliases are rewritten, then every definition is
    /// collected in match order, its arc list joined with dots.
    pub fn new(asn1: &str, bases: &[(String, String)]) -> (r: Asn1Parser)
        ensures
            ({
                let dl = defs_of(fold_from(asn1@, alias_names_of(asn1@), 0));
                &&& r.roots@.len() == bases@.len()
                &&& forall|i: int|
                    0 <= i < bases@.len() ==> r.roots@[i].0@ == bases@[i].0@ && r.roots@[i].1@
                        == bases@[i].1@
                &&& r.defs@.len() == dl.len()
                &&& forall|i: int|
                    0 <= i < dl.len() ==> r.defs@[i].name@ == dl[i].0
                        && r.defs@[i].base.deep_view() == dl[i].1
                        && r.defs@[i].tail.deep_view() == tail_of_def(dl[i].2)
            }),
    {
        let ghost names = alias_names_of(asn1@);
        let aliases = alias_names(asn1);
        let mut text: String = asn1.to_owned();
        let mut i: usize = 0;
        while i < aliases.len()
            invariant
                0 <= i <= aliases@.len(),
                aliases.deep_view() == names,
                forall|j: int| 0 <= j < names.len() ==> plain_name_chars(names[j]),
                fold_from(asn1@, names, 0) == fold_from(text@, names, i as int),
            decreases aliases@.len() - i,
        {
            proof {
                assert(aliases.deep_view()[i as int] == aliases@[i as int]@);
            }
            text = replace_alias_refs(text.as_str(), aliases[i].as_str());
            i = i + 1;
        }
        let ghost dl = defs_of(fold_from(asn1@, names, 0));
        let parts = oid_defs(text.as_str());
        proof {
            assert(parts.deep_view() == dl);
        }
        let mut defs: Vec<Def> = Vec::new();
        let mut k: usize = 0;
        while k < parts.len()
            invariant
                0 <= k <= parts@.len(),
                parts.deep_view() == dl,
                defs@.len() == k,
                forall|j: int|
                    0 <= j < k ==> defs@[j].name@ == dl[j].0 && defs@[j].base.deep_view()
                        == dl[j].1 && defs@[j].tail.deep_view() == tail_of_def(dl[j].2),
            decreases parts@.len() - k,
        {
            proof {
                assert(parts.deep_view()[k as int] == parts@[k as int].deep_view());
                assert(parts@[k as int].deep_view().0 == parts@[k as int].0@);
                assert(parts@[k as int].deep_view().1 == parts@[k as int].1.deep_view());
                assert(parts@[k as int].deep_view().2 == parts@[k as int].2@);
            }
            let name = parts[k].0.clone();
            let base: Option<String> = match &parts[k].1 {
                Some(b) => Some(b.clone()),
                None => None,
            };
            let toks = arc_tokens(parts[k].2.as_str());
            let ghost tl = arc_tokens_of(dl[k as int].2);
            let tail: Option<String> = if toks.len() == 0 {
                None
            } else {
                let mut joined = String::new();
                let mut t: usize = 0;
                proof {
                    assert(tl.take(0) =~= Seq::<Seq<char>>::empty());
                }
                while t < toks.len()
                    invariant
                        0 <= t <= toks@.len(),
                        toks.deep_view() == tl,
                        joined@ == dot_joined(tl.take(t as int)),
                    decreases toks@.len() - t,
                {
                    proof {
                        assert(toks.deep_view()[t as int] == toks@[t as int]@);
                        lemma_dot_joined_push(tl.take(t as int), tl[t as int]);
                        assert(tl.take(t as int).push(tl[t as int]) =~= tl.take(t as int + 1));
                    }
                    if t > 0 {
                        crate::parser::push_dot(&mut joined);
                    }
                    joined.append(toks[t].as_str());
                    t = t + 1;
                }
                proof {
                    assert(tl.take(toks@.len() as int) =~= tl);
                }
                Some(joined)
            };
            defs.push(Def { name, base, tail });
            k = k + 1;
        }
        let mut roots: Vec<(String, String)> = Vec::new();
        let mut b: usize = 0;
        while b < bases.len()
            invariant
                0 <= b <= bases@.len(),
                roots@.len() == b,
                forall|j: int|
                    0 <= j < b ==> roots@[j].0@ == bases@[j].0@ && roots@[j].1@ == bases@[j].1@,
            decreases bases@.len() - b,
        {
            roots.push((bases[b].0.as_str().to_owned(), bases[b].1.as_str().to_owned()));
            b = b + 1;
        }
        Asn1Parser { defs, roots }
    }

    fn find_root(&self, key: &String) -> (r: Option<usize>)
        ensures
            match r {
                Some(i) => i < self.roots@.len() && self.roots@[i as int].0@ == key@ && lookup_root(
                    self.roots@,
                    key@,
                ) == Some(self.roots@[i as int].1@),
                None => lookup_root(self.roots@, key@) is None,
            },
    {
        let mut i: usize = self.roots.len();
        proof {
            assert(self.roots@.take(i as int) =~= self.roots@);
        }
        while i > 0
            invariant
                0 <= i <= self.roots@.len(),
                lookup_root(self.roots@.take(i as int), key@) == lookup_root(self.roots@, key@),
            decreases i,
        {
            i = i - 1;
            proof {
                assert(self.roots@.take(i as int + 1).last() == self.roots@[i as int]);
                assert(self.roots@.take(i as int + 1).drop_last() =~= self.roots@.take(i as int));
            }
            if self.roots[i].0 == *key {
                return Some(i);
            }
        }
        proof {
            assert(self.roots@.take(0) =~= Seq::<(String, String)>::empty());
        }
        None
    }

    fn find_def(&self, key: &String) -> (r: Option<usize>)
        ensures
            match r {
                Some(i) => i < self.defs@.len() && lookup_def(self.defs@, key@) == Some(
                    self.defs@[i as int],
                ),
                None => lookup_def(self.defs@, key@) is None,
            },
    {
        let mut i: usize = self.defs.len();
        proof {
            assert(self.defs@.take(i as int) =~= self.defs@);
        }
        while i > 0
            invariant
                0 <= i <= self.defs@.len(),
                lookup_def(self.defs@.take(i as int), key@) == lookup_def(self.defs@, key@),
            decreases i,
        {
            i = i - 1;
            proof {
                assert(self.defs@.take(i as int + 1).last() == self.defs@[i as int]);
                assert(self.defs@.take(i as int + 1).drop_last() =~= self.defs@.take(i as int));
            }
            if self.defs[i].name == *key {
                return Some(i);
            }
        }
        proof {
            assert(self.defs@.take(0) =~= Seq::<Def>::empty());
        }
        None
    }

    fn resolve_fuel(&self, key: &String, fuel: usize) -> (r: Option<String>)
        ensures
            match r {
                Some(s) => resolve_spec(self.defs@, self.roots@, key@, fuel as nat) == Some(s@),
                None => resolve_spec(self.defs@, self.roots@, key@, fuel as nat) is None,
            },
        decreases fuel,
    {
        match self.find_root(key) {
            Some(i) => {
                return Some(self.roots[i].1.as_str().to_owned());
            },
            None => {},
        }
        let i = match self.find_def(key) {
            Some(i) => i,
            None => {
                return None;
            },
        };
        let has_base = match &self.defs[i].base {
            Some(_) => true,
            None => false,
        };
        if !has_base {
            return match &self.defs[i].tail {
                Some(t) => Some(t.as_str().to_owned()),
                None => None,
            };
        }
        if fuel == 0 {
            return None;
        }
        let base = match &self.defs[i].base {
            Some(b) => b.as_str().to_owned(),
            None => {
                proof {
                    assert(false);
                }
                return None;
            },
        };
        let bt = match self.resolve_fuel(&base, fuel - 1) {
            Some(bt) => bt,
            None => {
                return None;
            },
        };
        match &self.defs[i].tail {
            Some(t) => {
                let mut out = bt;
                crate::parser::push_dot(&mut out);
                out.append(t.as_str());
                Some(out)
            },
            None => Some(bt),
        }
    }

    /// The dotted string `name` resolves to through its base chain,
    /// or nothing when the name is unknown, its chain is incomplete,
    /// or its chain is cyclic.
    pub fn resolve(&self, name: &str) -> (r: Option<String>)
        ensures
            match r {
                Some(s) => resolve_spec(self.defs@, self.roots@, name@, self.defs@.len() as nat)
                    == Some(s@),
                None => resolve_spec(self.defs@, self.roots@, name@, self.defs@.len() as nat)
                    is None,
            },
    {
        let key: String = name.to_owned();
        let fuel = self.defs.len();
        self.resolve_fuel(&key, fuel)
    }

    fn is_used_as_base(&self, key: &String) -> (r: bool)
        ensures
            r == used_as_base(self.defs@, key@),
    {
        let mut j: usize = 0;
        while j < self.defs.len()
            invariant
                0 <= j <= self.defs@.len(),
                forall|k: int|
                    0 <= k < j ==> self.defs@[k].base.deep_view() != Some::<Seq<char>>(key@),
            decreases self.defs@.len() - j,
        {
            match &self.defs[j].base {
                Some(b) => {
                    if *b == *key {
                        return true;
                    }
                },
                None => {},
            }
            j = j + 1;
        }
        false
    }

    fn is_shadowed(&self, i: usize) -> (r: bool)
        ensures
            r == shadowed(self.defs@, i as int),
    {
        let n = self.defs.len();
        if i >= n {
            return false;
        }
        let mut j: usize = i + 1;
        while j < self.defs.len()
            invariant
                i < j <= self.defs@.len(),
                forall|k: int| i < k < j ==> self.defs@[k].name@ != self.defs@[i as int].name@,
            decreases self.defs@.len() - j,
        {
            if self.defs[j].name == self.defs[i].name {
                return true;
            }
            j = j + 1;
        }
        false
    }

    /// The `(name, dotted string)` pairs of every name that resolves
    /// and that no other definition extends, in definition order; of
    /// duplicated names only the governing, last definition counts.
    pub fn iter(&self) -> (r: Vec<(String, String)>)
        ensures
            r.deep_view() == iter_spec(self.defs@, self.roots@, 0),
    {
        let mut out: Vec<(String, String)> = Vec::new();
        let mut i: usize = 0;
        proof {
            assert(out.deep_view() =~= Seq::<(Seq<char>, Seq<char>)>::empty());
            assert(out.deep_view() + iter_spec(self.defs@, self.roots@, 0) =~= iter_spec(
                self.defs@,
                self.roots@,
                0,
            ));
        }
        while i < self.defs.len()
            invariant
                0 <= i <= self.defs@.len(),
                out.deep_view() + iter_spec(self.defs@, self.roots@, i as int) == iter_spec(
                    self.defs@,
                    self.roots@,
                    0,
                ),
            decreases self.defs@.len() - i,
        {
            let ghost before = out.deep_view();
            let name = self.defs[i].name.as_str().to_owned();
            let keep = !self.is_shadowed(i) && !self.is_used_as_base(&name);
            if keep {
                match self.resolve_fuel(&name, self.defs.len()) {
                    Some(p) => {
                        let ghost item = (self.defs@[i as int].name@, resolve_spec(
                            self.defs@,
                            self.roots@,
                            self.defs@[i as int].name@,
                            self.defs@.len() as nat,
                        )->Some_0);
                        out.push((name, p));
                        proof {
                            assert(out.deep_view() =~= before.push(item));
                            assert(before.push(item) + iter_spec(self.defs@, self.roots@, i + 1)
                                =~= before + (seq![item] + iter_spec(self.defs@, self.roots@, i + 1)));
                        }
                    },
                    None => {},
                }
            }
            i = i + 1;
        }
        proof {
            assert(iter_spec(self.defs@, self.roots@, i as int) =~= Seq::<
                (Seq<char>, Seq<char>),
            >::empty());
            assert(out.deep_view() + iter_spec(self.defs@, self.roots@, i as int) =~= out.deep_view());
        }
        out
    }
}

} // verus!
