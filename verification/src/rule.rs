//! Match rules: how a pattern is read, and which names a rule matches.

use vstd::prelude::*;
use regex::Regex;
use crate::engine::{compile, decides, is_match};
use crate::glob::{glob_accepts, glob_source, regex_for};
use crate::name::{detect_extension, detect_wildcard, has_extension, has_wildcard, stem, stem_of};
use crate::text::same_text;

verus! {

/// What a search looks for. It also says how a pattern is read: only the names
/// of files have extensions.
#[derive(Clone, Copy, Debug, PartialEq, Eq, Structural)]
pub enum SearchKind {
    File,
    Directory,
}

/// The engine refused the regular expression written for a wildcard pattern.
#[derive(Debug)]
pub struct PatternError {
    /// What the engine said.
    pub cause: regex::Error,
}

/// A wildcard pattern together with the compiled expression that decides it.
#[derive(Debug)]
pub struct Wildcard {
    glob: String,
    regex: Regex,
}

impl View for Wildcard {
    type V = Seq<char>;

    /// The wildcard pattern, as it was given.
    closed spec fn view(&self) -> Seq<char> {
        self.glob@
    }
}

impl Wildcard {
    #[verifier::type_invariant]
    spec fn regex_decides_pattern(self) -> bool {
        decides(self.regex, self.glob@)
    }

    /// Pairs `glob` with what the engine made of the expression written for
    /// it: a compiled expression that decides `glob`, or the engine's refusal.
    pub fn from_compiled(glob: &str, compiled: Result<Regex, regex::Error>) -> (made: Result<
        Wildcard,
        PatternError,
    >)
        requires
            compiled matches Ok(re) ==> decides(re, glob@),
        ensures
            match compiled {
                Ok(_) => made matches Ok(w) && w@ == glob@,
                Err(e) => made matches Err(refused) && refused.cause == e,
            },
    {
        match compiled {
            Ok(regex) => Ok(Wildcard { glob: String::from_str(glob), regex }),
            Err(cause) => Err(PatternError { cause }),
        }
    }

    /// Writes the expression for `glob` and has it compiled. Whether the engine
    /// takes the expression is the engine's to say.
    pub fn new(glob: &str) -> (made: Result<Wildcard, PatternError>)
        ensures
            made matches Ok(w) ==> w@ == glob@,
    {
        let source = regex_for(glob);
        let compiled = compile(source.as_str());
        assert(glob_source(glob@) == source@);
        Wildcard::from_compiled(glob, compiled)
    }

    /// Whether the pattern accepts the whole of `text`.
    pub fn accepts(&self, text: &str) -> (found: bool)
        ensures
            found == glob_accepts(self@, text@),
    {
        proof {
            use_type_invariant(self);
        }
        is_match(&self.regex, text)
    }

    /// The wildcard pattern, as it was given.
    pub fn pattern(&self) -> (glob: &str)
        ensures
            glob@ == self@,
    {
        self.glob.as_str()
    }
}

/// How a candidate name is tested.
#[derive(Debug)]
pub enum MatchRule {
    /// The stem of a file's name, or the whole name of a directory, is the text.
    ExactName(String),
    /// The whole name of a file is the text. Matches no directory.
    ExactNameWithExtension(String),
    /// The pattern accepts the stem of a file's name, or the whole name of a
    /// directory.
    WildcardName(Wildcard),
    /// The pattern accepts the whole name of a file. Matches no directory.
    WildcardNameWithExtension(Wildcard),
}

/// The model of a [`MatchRule`]: its variant and the characters of its pattern.
pub enum Rule {
    ExactName(Seq<char>),
    ExactNameWithExtension(Seq<char>),
    WildcardName(Seq<char>),
    WildcardNameWithExtension(Seq<char>),
}

impl View for MatchRule {
    type V = Rule;

    open spec fn view(&self) -> Rule {
        match self {
            MatchRule::ExactName(text) => Rule::ExactName(text@),
            MatchRule::ExactNameWithExtension(text) => Rule::ExactNameWithExtension(text@),
            MatchRule::WildcardName(wildcard) => Rule::WildcardName(wildcard@),
            MatchRule::WildcardNameWithExtension(wildcard) => Rule::WildcardNameWithExtension(
                wildcard@,
            ),
        }
    }
}

impl Rule {
    /// Whether the rule matches an entry of the given kind and name.
    pub open spec fn matches(self, name: Seq<char>, kind: SearchKind) -> bool {
        match kind {
            SearchKind::File => match self {
                Rule::ExactName(text) => stem(name) == text,
                Rule::ExactNameWithExtension(text) => name == text,
                Rule::WildcardName(glob) => glob_accepts(glob, stem(name)),
                Rule::WildcardNameWithExtension(glob) => glob_accepts(glob, name),
            },
            SearchKind::Directory => match self {
                Rule::ExactName(text) => name == text,
                Rule::WildcardName(glob) => glob_accepts(glob, name),
                Rule::ExactNameWithExtension(_) => false,
                Rule::WildcardNameWithExtension(_) => false,
            },
        }
    }
}

/// The rule that `pattern` stands for in a search of the given kind.
pub open spec fn classified(pattern: Seq<char>, mode: SearchKind) -> Rule {
    let with_extension = mode == SearchKind::File && has_extension(pattern);
    if has_wildcard(pattern) {
        if with_extension {
            Rule::WildcardNameWithExtension(pattern)
        } else {
            Rule::WildcardName(pattern)
        }
    } else {
        if with_extension {
            Rule::ExactNameWithExtension(pattern)
        } else {
            Rule::ExactName(pattern)
        }
    }
}

/// A pattern without `.` and without `*` is an exact name, whatever is
/// searched.
pub proof fn lemma_plain_pattern_is_exact_name(pattern: Seq<char>, mode: SearchKind)
    requires
        !pattern.contains('.'),
        !pattern.contains('*'),
    ensures
        classified(pattern, mode) == Rule::ExactName(pattern),
{
}

/// A pattern with a `*` and without an extension is a wildcard name, whatever
/// is searched: it matches the files whose stem the pattern accepts, and the
/// directories whose name it accepts.
pub proof fn lemma_wildcard_pattern_is_wildcard_name(
    pattern: Seq<char>,
    mode: SearchKind,
    name: Seq<char>,
)
    requires
        pattern.contains('*'),
        !has_extension(pattern),
    ensures
        classified(pattern, mode) == Rule::WildcardName(pattern),
        classified(pattern, mode).matches(name, SearchKind::File) == glob_accepts(
            pattern,
            stem(name),
        ),
        classified(pattern, mode).matches(name, SearchKind::Directory) == glob_accepts(
            pattern,
            name,
        ),
{
}

/// In a search for directories the extension plays no part: only the `*`
/// decides between the two rules that match directories.
pub proof fn lemma_directory_pattern(pattern: Seq<char>)
    ensures
        classified(pattern, SearchKind::Directory) == if has_wildcard(pattern) {
            Rule::WildcardName(pattern)
        } else {
            Rule::ExactName(pattern)
        },
{
}

/// The rule for a wildcard that was made for `pattern`, in a search of the
/// given kind.
pub open spec fn wildcard_rule(glob: Seq<char>, pattern: Seq<char>, mode: SearchKind) -> Rule {
    if mode == SearchKind::File && has_extension(pattern) {
        Rule::WildcardNameWithExtension(glob)
    } else {
        Rule::WildcardName(glob)
    }
}

impl MatchRule {
    /// Makes the rule for `pattern` of the wildcard that was made for it, or
    /// hands on the engine's refusal. For a pattern with `*` and its own
    /// wildcard the rule is the one that the pattern stands for.
    pub fn with_wildcard(
        pattern: &str,
        mode: SearchKind,
        made: Result<Wildcard, PatternError>,
    ) -> (rule: Result<MatchRule, PatternError>)
        ensures
            match made {
                Ok(w) => {
                    &&& rule matches Ok(r)
                    &&& r@ == wildcard_rule(w@, pattern@, mode)
                    &&& has_wildcard(pattern@) && w@ == pattern@ ==> r@ == classified(
                        pattern@,
                        mode,
                    )
                },
                Err(e) => rule matches Err(refused) && refused.cause == e.cause,
            },
    {
        match made {
            Ok(wildcard) => {
                let with_extension = match mode {
                    SearchKind::File => detect_extension(pattern),
                    SearchKind::Directory => false,
                };
                if with_extension {
                    Ok(MatchRule::WildcardNameWithExtension(wildcard))
                } else {
                    Ok(MatchRule::WildcardName(wildcard))
                }
            },
            Err(refused) => Err(refused),
        }
    }

    /// Reads `pattern` for a search for files.
    ///
    /// A pattern without `*` always gives a rule. For one with `*` the engine
    /// has to take the expression written for it.
    pub fn from_file(pattern: &str) -> (made: Result<MatchRule, PatternError>)
        ensures
            made matches Ok(rule) ==> rule@ == classified(pattern@, SearchKind::File),
            !has_wildcard(pattern@) ==> made is Ok,
    {
        if detect_wildcard(pattern) {
            MatchRule::with_wildcard(pattern, SearchKind::File, Wildcard::new(pattern))
        } else if detect_extension(pattern) {
            Ok(MatchRule::ExactNameWithExtension(String::from_str(pattern)))
        } else {
            Ok(MatchRule::ExactName(String::from_str(pattern)))
        }
    }

    /// Reads `pattern` for a search for directories, whose names have no
    /// extensions.
    pub fn from_dir(pattern: &str) -> (made: Result<MatchRule, PatternError>)
        ensures
            made matches Ok(rule) ==> rule@ == classified(pattern@, SearchKind::Directory),
            !has_wildcard(pattern@) ==> made is Ok,
    {
        if detect_wildcard(pattern) {
            MatchRule::with_wildcard(pattern, SearchKind::Directory, Wildcard::new(pattern))
        } else {
            Ok(MatchRule::ExactName(String::from_str(pattern)))
        }
    }

    /// Whether the rule matches an entry of the given kind and name.
    pub fn matches(&self, name: &str, kind: SearchKind) -> (hit: bool)
        ensures
            hit == self@.matches(name@, kind),
    {
        match kind {
            SearchKind::File => match self {
                MatchRule::ExactName(text) => same_text(stem_of(name), text.as_str()),
                MatchRule::ExactNameWithExtension(text) => same_text(name, text.as_str()),
                MatchRule::WildcardName(wildcard) => wildcard.accepts(stem_of(name)),
                MatchRule::WildcardNameWithExtension(wildcard) => wildcard.accepts(name),
            },
            SearchKind::Directory => match self {
                MatchRule::ExactName(text) => same_text(name, text.as_str()),
                MatchRule::WildcardName(wildcard) => wildcard.accepts(name),
                MatchRule::ExactNameWithExtension(_) => false,
                MatchRule::WildcardNameWithExtension(_) => false,
            },
        }
    }
}

/// Reads `pattern` for a search of the given kind.
pub fn classify(pattern: &str, mode: SearchKind) -> (made: Result<MatchRule, PatternError>)
    ensures
        made matches Ok(rule) ==> rule@ == classified(pattern@, mode),
        !has_wildcard(pattern@) ==> made is Ok,
{
    match mode {
        SearchKind::File => MatchRule::from_file(pattern),
        SearchKind::Directory => MatchRule::from_dir(pattern),
    }
}

} // verus!
