//! Reading a file in full, without comments, or as a skeleton.

use crate::parser;
use crate::paths;
use crate::text;
use vstd::prelude::*;

verus! {

/// What a read gives: the output, the bytes that it saves, and the bytes of the file.
pub struct ReadOutput {
    pub output: String,
    pub saved_bytes: usize,
    pub raw_bytes: usize,
}

/// How much shorter the second number is than the first, or zero.
pub open spec fn shortfall(whole: nat, part: nat) -> nat {
    if part < whole {
        (whole - part) as nat
    } else {
        0
    }
}

/// The skeleton of a file, behind a line that names the file.
pub open spec fn skeleton_output(
    file_path: Seq<char>,
    source: Seq<char>,
    skeleton: Seq<char>,
) -> Seq<char> {
    "// skeleton of "@ + file_path + " ("@ + text::decimal(text::lines_of(source).len())
        + " lines total)\n\n"@ + skeleton
}

/// The output of a read and the bytes that it saves, or nothing where the mode is unknown.
pub open spec fn read_output(
    file_path: Seq<char>,
    canonical_path: Seq<char>,
    mode: Seq<char>,
    source: Seq<char>,
) -> Option<(Seq<char>, nat)> {
    let lang = parser::language_of(paths::extension_of(canonical_path));
    if mode == "skeleton"@ {
        match lang {
            Some(l) => {
                let out = skeleton_output(file_path, source, parser::skeleton_of(source, l));
                Some((out, shortfall(text::byte_len(source), text::byte_len(out))))
            },
            None => Some(
                (
                    "// No tree-sitter grammar for this file type; returning full content.\n"@
                        + source,
                    0nat,
                ),
            ),
        }
    } else if mode == "compressed"@ {
        match lang {
            Some(l) => {
                let out = parser::stripped(source, l);
                Some((out, shortfall(text::byte_len(source), text::byte_len(out))))
            },
            None => Some((source, 0nat)),
        }
    } else if mode == "full"@ {
        Some((source, 0nat))
    } else {
        None
    }
}

/// Renders the skeleton of a file. `skeleton` holds its signatures.
pub fn render_skeleton(file_path: &str, source: &str, skeleton: &str) -> (r: String)
    ensures
        r@ == skeleton_output(file_path@, source@, skeleton@),
{
    let lines = text::lines(source);
    assert(text::views(lines@).len() == lines@.len());
    let mut out = text::copy("// skeleton of ");
    out.append(file_path);
    out.append(" (");
    out.append(text::decimal_text(lines.len() as u128).as_str());
    out.append(" lines total)\n\n");
    out.append(skeleton);
    out
}

fn saved(whole: usize, part: usize) -> (r: usize)
    ensures
        r == shortfall(whole as nat, part as nat),
{
    if part < whole {
        whole - part
    } else {
        0
    }
}

/// Reads a file in a mode. `source` is its text, and `canonical_path` its resolved path, which
/// tells the language.
pub fn surgical_read(file_path: &str, canonical_path: &str, mode: &str, source: &str) -> (r: Result<
    ReadOutput,
    String,
>)
    ensures
        match read_output(file_path@, canonical_path@, mode@, source@) {
            Some(o) => r matches Ok(read) && read.output@ == o.0 && read.saved_bytes == o.1
                && read.raw_bytes == text::byte_len(source@),
            None => r matches Err(e) && e@ == "Unknown mode '"@ + mode@
                + "'. Use 'skeleton', 'compressed', or 'full'."@,
        },
{
    let raw_bytes: usize = text::byte_count(source);
    if text::str_eq(mode, "skeleton") {
        match parser::detect_language(canonical_path) {
            Some(lang) => {
                let skeleton = parser::extract_skeleton(source, lang);
                let output = render_skeleton(file_path, source, skeleton.as_str());
                let saved_bytes: usize = saved(raw_bytes, text::byte_count(output.as_str()));
                Ok(ReadOutput { output, saved_bytes, raw_bytes })
            },
            None => {
                let mut output = text::copy(
                    "// No tree-sitter grammar for this file type; returning full content.\n",
                );
                output.append(source);
                Ok(ReadOutput { output, saved_bytes: 0, raw_bytes })
            },
        }
    } else if text::str_eq(mode, "compressed") {
        match parser::detect_language(canonical_path) {
            Some(lang) => {
                let output = parser::strip_comments(source, lang);
                let saved_bytes: usize = saved(raw_bytes, text::byte_count(output.as_str()));
                Ok(ReadOutput { output, saved_bytes, raw_bytes })
            },
            None => Ok(ReadOutput { output: text::copy(source), saved_bytes: 0, raw_bytes }),
        }
    } else if text::str_eq(mode, "full") {
        Ok(ReadOutput { output: text::copy(source), saved_bytes: 0, raw_bytes })
    } else {
        let mut e = text::copy("Unknown mode '");
        e.append(mode);
        e.append("'. Use 'skeleton', 'compressed', or 'full'.");
        Err(e)
    }
}

/// A full read gives the file as it is.
pub proof fn law_a_full_read_is_lossless(
    file_path: Seq<char>,
    canonical_path: Seq<char>,
    source: Seq<char>,
)
    ensures
        read_output(file_path, canonical_path, "full"@, source) == Some((source, 0nat)),
{
    reveal_strlit("full");
    reveal_strlit("skeleton");
    reveal_strlit("compressed");
    assert("full"@.len() != "skeleton"@.len());
    assert("full"@.len() != "compressed"@.len());
}

/// No read saves more bytes than the file has, and what it saves is what is missing of it.
pub proof fn law_savings_are_bounded_by_the_file(
    file_path: Seq<char>,
    canonical_path: Seq<char>,
    mode: Seq<char>,
    source: Seq<char>,
)
    ensures
        read_output(file_path, canonical_path, mode, source) matches Some(o) ==> o.1
            <= text::byte_len(source) && (o.1 > 0 ==> o.1 + text::byte_len(o.0) == text::byte_len(
            source,
        )),
{
}

proof fn lemma_modes_differ()
    ensures
        "full"@ != "skeleton"@,
        "full"@ != "compressed"@,
        "skeleton"@ != "compressed"@,
{
    reveal_strlit("full");
    reveal_strlit("skeleton");
    reveal_strlit("compressed");
    assert("full"@.len() != "skeleton"@.len());
    assert("full"@.len() != "compressed"@.len());
    assert("skeleton"@.len() != "compressed"@.len());
}

/// A file can be read in three modes, whatever it is.
pub proof fn law_there_are_three_modes(
    file_path: Seq<char>,
    canonical_path: Seq<char>,
    mode: Seq<char>,
    source: Seq<char>,
)
    ensures
        read_output(file_path, canonical_path, mode, source) is Some <==> (mode == "full"@ || mode
            == "compressed"@ || mode == "skeleton"@),
{
}

/// A compressed read gives the source without its comments, and saves what they took. A file
/// without a grammar is given as it is.
pub proof fn law_a_compressed_read_strips_comments(
    file_path: Seq<char>,
    canonical_path: Seq<char>,
    source: Seq<char>,
)
    ensures
        match parser::language_of(paths::extension_of(canonical_path)) {
            Some(lang) => read_output(file_path, canonical_path, "compressed"@, source) matches Some(
                o,
            ) && o.0 == parser::stripped(source, lang) && (text::byte_len(o.0) <= text::byte_len(
                source,
            ) ==> o.1 == text::byte_len(source) - text::byte_len(o.0)),
            None => read_output(file_path, canonical_path, "compressed"@, source) == Some(
                (source, 0nat),
            ),
        },
{
    lemma_modes_differ();
}

/// A skeleton names the file as it was asked for and how many lines it has, in front of the
/// signatures, and saves the rest. A file without a grammar is given in full.
pub proof fn law_a_skeleton_names_the_file_and_its_lines(
    file_path: Seq<char>,
    canonical_path: Seq<char>,
    source: Seq<char>,
)
    ensures
        match parser::language_of(paths::extension_of(canonical_path)) {
            Some(lang) => read_output(file_path, canonical_path, "skeleton"@, source) matches Some(o)
                && o.0 == "// skeleton of "@ + file_path + " ("@ + text::decimal(
                text::lines_of(source).len(),
            ) + " lines total)\n\n"@ + parser::skeleton_of(source, lang) && (text::byte_len(o.0)
                <= text::byte_len(source) ==> o.1 == text::byte_len(source) - text::byte_len(o.0)),
            None => read_output(file_path, canonical_path, "skeleton"@, source) == Some(
                (
                    "// No tree-sitter grammar for this file type; returning full content.\n"@
                        + source,
                    0nat,
                ),
            ),
        },
{
}

} // verus!
