//! The decisions of the `mtrd` command line: which manifest format a file
//! extension names, when a conversion is refused, and what `check` prints
//! at each verbosity.

use vstd::prelude::*;

use crate::text::{chars_of, push_char};

verus! {

/// A manifest format.
#[derive(Clone, Copy, Debug, PartialEq, Eq, Structural)]
pub enum Format {
    Yaml,
    Json,
}

/// `char::to_ascii_lowercase`.
pub open spec fn ascii_lower(c: char) -> char {
    if 'A' <= c && c <= 'Z' { ((c as u32) + 32) as char } else { c }
}

/// `str::to_ascii_lowercase`.
pub open spec fn ascii_lowercase(s: Seq<char>) -> Seq<char> {
    s.map_values(|c: char| ascii_lower(c))
}

/// The format a file extension names, letter case aside: `yaml` and `yml`
/// name YAML, `json` names JSON.
pub open spec fn format_for(extension: Seq<char>) -> Option<Format> {
    let e = ascii_lowercase(extension);
    if e == "yaml"@ || e == "yml"@ {
        Some(Format::Yaml)
    } else if e == "json"@ {
        Some(Format::Json)
    } else {
        None
    }
}

/// Lowercasing twice is lowercasing once.
proof fn lemma_ascii_lowercase_idempotent(s: Seq<char>)
    ensures
        ascii_lowercase(ascii_lowercase(s)) == ascii_lowercase(s),
{
    assert forall|i: int| 0 <= i < s.len() implies #[trigger] ascii_lower(ascii_lower(s[i])) == ascii_lower(s[i]) by {
        let c = s[i];
        if 'A' <= c && c <= 'Z' {
            assert(65 <= (c as u32) <= 90);
            assert((((c as u32) + 32) as char) as u32 == (c as u32) + 32);
        }
    }
    assert(ascii_lowercase(ascii_lowercase(s)) =~= ascii_lowercase(s));
}

/// Letter case in an extension does not matter: an extension names the same
/// format as its ASCII-lowercased form, so `YAML`, `Yml` or `JSON` name what
/// `yaml`, `yml` and `json` name.
pub proof fn lemma_format_ignores_case(extension: Seq<char>)
    ensures
        format_for(extension) == format_for(ascii_lowercase(extension)),
{
    lemma_ascii_lowercase_idempotent(extension);
}

/// `yaml` and `yml` name YAML, `json` names JSON.
pub proof fn lemma_format_names()
    ensures
        format_for("yaml"@) == Some(Format::Yaml),
        format_for("yml"@) == Some(Format::Yaml),
        format_for("json"@) == Some(Format::Json),
{
    reveal_strlit("yaml");
    reveal_strlit("yml");
    reveal_strlit("json");
    assert(ascii_lowercase("yaml"@) =~= "yaml"@);
    assert(ascii_lowercase("yml"@) =~= "yml"@);
    assert(ascii_lowercase("json"@) =~= "json"@);
    assert("json"@[0] != "yaml"@[0] && "json"@[0] != "yml"@[0]);
}

fn lowercase(s: &str) -> (res: Vec<char>)
    ensures
        res@ == ascii_lowercase(s@),
{
    let cs = chars_of(s);
    let mut res: Vec<char> = Vec::new();
    let mut i: usize = 0;
    while i < cs.len()
        invariant
            cs@ == s@,
            i <= cs@.len(),
            res@ == ascii_lowercase(cs@.take(i as int)),
        decreases cs@.len() - i,
    {
        let c = cs[i];
        let l = if 'A' <= c && c <= 'Z' { ((c as u32) + 32) as u8 as char } else { c };
        proof {
            if 'A' <= c && c <= 'Z' {
                assert(((c as u32) + 32) as u8 as char == ((c as u32) + 32) as char);
            }
        }
        res.push(l);
        proof {
            assert(res@ =~= ascii_lowercase(cs@.take(i + 1)));
        }
        i = i + 1;
    }
    proof {
        assert(cs@.take(cs@.len() as int) =~= cs@);
    }
    res
}

fn same(a: &Vec<char>, b: &str) -> (res: bool)
    ensures
        res == (a@ == b@),
{
    let bs = chars_of(b);
    if a.len() != bs.len() {
        return false;
    }
    let mut i: usize = 0;
    while i < a.len()
        invariant
            bs@ == b@,
            a@.len() == bs@.len(),
            i <= a@.len(),
            forall|j: int| 0 <= j < i ==> a@[j] == bs@[j],
        decreases a@.len() - i,
    {
        if a[i] != bs[i] {
            return false;
        }
        i = i + 1;
    }
    proof {
        assert(a@ =~= bs@);
    }
    true
}

impl Format {
    /// The format of a file with extension `extension` (`None` when the file
    /// name has none).
    pub fn from_extension(extension: Option<&str>) -> (res: Option<Format>)
        ensures
            match extension {
                None => res is None,
                Some(e) => res == format_for(e@),
            },
    {
        match extension {
            None => None,
            Some(e) => {
                let l = lowercase(e);
                if same(&l, "yaml") || same(&l, "yml") {
                    Some(Format::Yaml)
                } else if same(&l, "json") {
                    Some(Format::Json)
                } else {
                    None
                }
            },
        }
    }

    /// How the format is named in messages.
    pub fn name(self) -> (res: &'static str)
        ensures
            res@ == (match self {
                Format::Yaml => "YAML"@,
                Format::Json => "JSON"@,
            }),
    {
        match self {
            Format::Yaml => "YAML",
            Format::Json => "JSON",
        }
    }
}

/// A conversion refused because both sides use the same format.
#[derive(Clone, Copy, Debug, PartialEq, Eq)]
pub struct SameFormat {
    pub format: &'static str,
}

/// A conversion must change the format.
pub fn check_conversion(input: Format, output: Format) -> (res: Result<(), SameFormat>)
    ensures
        res is Ok <==> input != output,
        match res {
            Err(e) => e.format@ == (match input {
                Format::Yaml => "YAML"@,
                Format::Json => "JSON"@,
            }),
            Ok(_) => true,
        },
{
    if input == output {
        Err(SameFormat { format: input.name() })
    } else {
        Ok(())
    }
}

/// What `check` prints about a manifest that parsed.
#[derive(Clone, Copy, Debug, PartialEq, Eq, Structural)]
pub enum CheckReport {
    /// `<path>: valid`.
    Valid,
    /// The manifest as canonical YAML.
    CanonicalYaml,
    /// The detailed debug representation.
    Debug,
}

/// Verbosity may be given at most twice.
#[derive(Clone, Copy, Debug, PartialEq, Eq)]
pub struct ExcessiveVerbosity;

/// The report for verbosity `verbose`: none, `-v` or `-vv`.
pub fn check_report(verbose: u8) -> (res: Result<CheckReport, ExcessiveVerbosity>)
    ensures
        verbose == 0 ==> res == Ok::<CheckReport, ExcessiveVerbosity>(CheckReport::Valid),
        verbose == 1 ==> res == Ok::<CheckReport, ExcessiveVerbosity>(CheckReport::CanonicalYaml),
        verbose == 2 ==> res == Ok::<CheckReport, ExcessiveVerbosity>(CheckReport::Debug),
        verbose > 2 ==> res is Err,
{
    match verbose {
        0 => Ok(CheckReport::Valid),
        1 => Ok(CheckReport::CanonicalYaml),
        2 => Ok(CheckReport::Debug),
        _ => Err(ExcessiveVerbosity),
    }
}

/// `text`, ending with a line feed: one is added unless it already ends
/// with one.
pub fn terminate_line(text: String) -> (res: String)
    ensures
        text@.len() > 0 && text@.last() == '\n' ==> res@ == text@,
        !(text@.len() > 0 && text@.last() == '\n') ==> res@ == text@.push('\n'),
{
    let cs = chars_of(text.as_str());
    if cs.len() > 0 && cs[cs.len() - 1] == '\n' {
        text
    } else {
        let mut t = text;
        push_char(&mut t, '\n');
        t
    }
}

} // verus!
