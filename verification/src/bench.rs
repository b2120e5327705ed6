//! The options of the benchmark command, and the record of its
//! observations.

use crate::diagnostic::json::{
    array, item_texts, joined_items, json_array, json_bool, json_string, quoted_strings, string, strings_array,
};
use crate::text::{parse_index, parsed_index, same_text, texts};
use vstd::prelude::*;

verus! {

/// How many times each workload is measured when the options do not say.
pub const DEFAULT_SAMPLES: usize = 5;

/// What the benchmark command is asked to do: the workloads to measure,
/// how many times each, and whether the observations are recorded.
pub struct BenchOptions {
    pub paths: Vec<String>,
    pub samples: usize,
    pub record: bool,
}

/// The options that the arguments left set, after the paths, count and
/// recording given: `--samples` takes the positive count after it,
/// `--no-record` turns recording off, any other argument that begins with
/// `-` is refused, and every other argument is a path.
pub open spec fn options_after(arguments: Seq<Seq<char>>, paths: Seq<Seq<char>>, samples: nat, record: bool) -> Result<
    (Seq<Seq<char>>, nat, bool),
    Seq<char>,
>
    decreases arguments.len(),
{
    if arguments.len() == 0 {
        Ok((paths, samples, record))
    } else if arguments[0] == "--samples"@ {
        let count = if arguments.len() >= 2 {
            parsed_index(arguments[1])
        } else {
            None
        };
        match count {
            Some(count) => if count > 0 {
                options_after(arguments.skip(2), paths, count, record)
            } else {
                Err("--samples requires a positive integer"@)
            },
            None => Err("--samples requires a positive integer"@),
        }
    } else if arguments[0] == "--no-record"@ {
        options_after(arguments.skip(1), paths, samples, false)
    } else if arguments[0].len() > 0 && arguments[0][0] == '-' {
        Err("unknown bench option "@ + arguments[0])
    } else {
        options_after(arguments.skip(1), paths.push(arguments[0]), samples, record)
    }
}

/// The options the arguments give, from five samples, recorded, and no
/// path; the target corpus is the one path when none is given.
pub open spec fn options_of(arguments: Seq<Seq<char>>) -> Result<(Seq<Seq<char>>, nat, bool), Seq<char>> {
    match options_after(arguments, Seq::empty(), DEFAULT_SAMPLES as nat, true) {
        Ok((paths, samples, record)) => Ok(
            (
                if paths.len() == 0 {
                    seq!["tests/corpus/target"@]
                } else {
                    paths
                },
                samples,
                record,
            ),
        ),
        Err(message) => Err(message),
    }
}

/// The options left set with recording off from the start: those left set
/// otherwise, with recording off.
pub open spec fn recording_off(
    options: Result<(Seq<Seq<char>>, nat, bool), Seq<char>>,
) -> Result<(Seq<Seq<char>>, nat, bool), Seq<char>> {
    match options {
        Ok((paths, samples, _)) => Ok((paths, samples, false)),
        Err(message) => Err(message),
    }
}

/// Whether an argument begins with `-`.
pub open spec fn dashed(argument: Seq<char>) -> bool {
    argument.len() > 0 && argument[0] == '-'
}

/// Starting with recording off changes nothing but the recording.
proof fn lemma_record_off(arguments: Seq<Seq<char>>, paths: Seq<Seq<char>>, samples: nat, record: bool)
    ensures
        options_after(arguments, paths, samples, false) == recording_off(
            options_after(arguments, paths, samples, record),
        ),
    decreases arguments.len(),
{
    if arguments.len() > 0 {
        if arguments[0] == "--samples"@ {
            if arguments.len() >= 2 {
                match parsed_index(arguments[1]) {
                    Some(count) => if count > 0 {
                        lemma_record_off(arguments.skip(2), paths, count, record);
                    },
                    None => {},
                }
            }
        } else if arguments[0] == "--no-record"@ {
            lemma_record_off(arguments.skip(1), paths, samples, false);
            lemma_record_off(arguments.skip(1), paths, samples, record);
        } else if dashed(arguments[0]) {
        } else {
            lemma_record_off(arguments.skip(1), paths.push(arguments[0]), samples, record);
        }
    }
}

/// Arguments none of which begins with `-` are paths, added in order.
proof fn lemma_plain_after(arguments: Seq<Seq<char>>, paths: Seq<Seq<char>>, samples: nat, record: bool)
    requires
        forall|i: int| 0 <= i < arguments.len() ==> !dashed(#[trigger] arguments[i]),
    ensures
        options_after(arguments, paths, samples, record) == Ok::<(Seq<Seq<char>>, nat, bool), Seq<char>>(
            (paths + arguments, samples, record),
        ),
    decreases arguments.len(),
{
    reveal_strlit("--samples");
    reveal_strlit("--no-record");
    if arguments.len() == 0 {
        assert(paths + arguments =~= paths);
    } else {
        assert(!dashed(arguments[0]));
        assert(arguments[0] != "--samples"@);
        assert(arguments[0] != "--no-record"@);
        let rest = arguments.skip(1);
        assert forall|i: int| 0 <= i < rest.len() implies !dashed(#[trigger] rest[i]) by {
            assert(rest[i] == arguments[i + 1]);
        }
        lemma_plain_after(rest, paths.push(arguments[0]), samples, record);
        assert(paths.push(arguments[0]) + rest =~= paths + arguments);
    }
}

/// The options always name at least one workload to measure.
pub proof fn lemma_options_measure_something(arguments: Seq<Seq<char>>)
    ensures
        options_of(arguments) matches Ok((paths, _, _)) ==> paths.len() > 0,
{
}

/// Arguments none of which begins with `-` are the workloads, in order,
/// measured five times each and recorded; with no argument at all, the
/// target corpus is.
pub proof fn lemma_plain_arguments(arguments: Seq<Seq<char>>)
    requires
        forall|i: int| 0 <= i < arguments.len() ==> !dashed(#[trigger] arguments[i]),
    ensures
        options_of(arguments) == Ok::<(Seq<Seq<char>>, nat, bool), Seq<char>>(
            (
                if arguments.len() == 0 {
                    seq!["tests/corpus/target"@]
                } else {
                    arguments
                },
                DEFAULT_SAMPLES as nat,
                true,
            ),
        ),
{
    lemma_plain_after(arguments, Seq::empty(), DEFAULT_SAMPLES as nat, true);
    assert(Seq::<Seq<char>>::empty() + arguments =~= arguments);
}

/// `--no-record` before the other arguments turns recording off and
/// changes nothing else: the same workloads, the same count, the same
/// error.
pub proof fn lemma_no_record_first(arguments: Seq<Seq<char>>)
    ensures
        options_of(seq!["--no-record"@] + arguments) == recording_off(options_of(arguments)),
{
    reveal_strlit("--samples");
    reveal_strlit("--no-record");
    let all = seq!["--no-record"@] + arguments;
    assert(all[0] == "--no-record"@);
    assert(all[0] != "--samples"@);
    assert(all.skip(1) =~= arguments);
    lemma_record_off(arguments, Seq::empty(), DEFAULT_SAMPLES as nat, true);
}

/// The texts of strings, one for each, in order.
proof fn lemma_texts(strings: Seq<String>)
    ensures
        texts(strings).len() == strings.len(),
        forall|i: int| 0 <= i < strings.len() ==> #[trigger] texts(strings)[i] == strings[i]@,
    decreases strings.len(),
{
    if strings.len() > 0 {
        lemma_texts(strings.drop_last());
        assert forall|i: int| 0 <= i < strings.len() implies #[trigger] texts(strings)[i] == strings[i]@ by {
            if i < strings.len() - 1 {
                assert(strings.drop_last()[i] == strings[i]);
            }
        }
    }
}

/// The options that the benchmark command's arguments give, or the error
/// for the first argument it refuses.
pub fn bench_options(arguments: &Vec<String>) -> (result: Result<BenchOptions, String>)
    ensures
        match result {
            Ok(options) => options_of(texts(arguments@)) == Ok::<(Seq<Seq<char>>, nat, bool), Seq<char>>(
                (texts(options.paths@), options.samples as nat, options.record),
            ),
            Err(message) => options_of(texts(arguments@)) == Err::<(Seq<Seq<char>>, nat, bool), Seq<char>>(message@),
        },
{
    let ghost words = texts(arguments@);
    proof {
        lemma_texts(arguments@);
    }
    let mut paths: Vec<String> = Vec::new();
    let mut samples: usize = DEFAULT_SAMPLES;
    let mut record = true;
    let mut index: usize = 0;
    assert(words.skip(0) =~= words);
    while index < arguments.len()
        invariant
            index <= arguments@.len(),
            words == texts(arguments@),
            words.len() == arguments@.len(),
            forall|i: int| 0 <= i < arguments@.len() ==> #[trigger] words[i] == arguments@[i]@,
            options_after(words.skip(index as int), texts(paths@), samples as nat, record) == options_after(
                words,
                Seq::empty(),
                DEFAULT_SAMPLES as nat,
                true,
            ),
        decreases arguments.len() - index,
    {
        let ghost rest = words.skip(index as int);
        let argument = arguments[index].as_str();
        assert(rest[0] == argument@);
        if same_text(argument, "--samples") {
            if index + 1 < arguments.len() {
                assert(rest[1] == arguments@[index + 1]@);
                if let Some(count) = parse_index(arguments[index + 1].as_str()) {
                    if count > 0 {
                        samples = count;
                        assert(rest.skip(2) =~= words.skip(index + 2));
                        index += 2;
                        continue;
                    }
                }
            }
            return Err(String::from_str("--samples requires a positive integer"));
        } else if same_text(argument, "--no-record") {
            record = false;
            assert(rest.skip(1) =~= words.skip(index + 1));
            index += 1;
        } else if argument.unicode_len() > 0 && argument.get_char(0) == '-' {
            let mut message = String::from_str("unknown bench option ");
            message.append(argument);
            return Err(message);
        } else {
            let ghost before = paths@;
            paths.push(arguments[index].clone());
            proof {
                assert(paths@.drop_last() =~= before);
                assert(rest.skip(1) =~= words.skip(index + 1));
            }
            index += 1;
        }
    }
    assert(words.skip(index as int) =~= Seq::<Seq<char>>::empty());
    if paths.len() == 0 {
        paths.push(String::from_str("tests/corpus/target"));
        proof {
            assert(paths@.drop_last() =~= Seq::<String>::empty());
        }
    }
    Ok(BenchOptions { paths, samples, record })
}

/// A text as the benchmark records quote it: a JSON string.
pub fn quote(text: &str) -> (result: String)
    ensures
        result@ == json_string(text@),
{
    string(text)
}


/// The members of the compiler's build description, `"key":"value"` each.
pub open spec fn build_members(fields: Seq<(String, String)>) -> Seq<Seq<char>>
    decreases fields.len(),
{
    if fields.len() == 0 {
        Seq::empty()
    } else {
        build_members(fields.drop_last()).push(
            json_string(fields.last().0@) + ":"@ + json_string(fields.last().1@),
        )
    }
}

/// The raw record of a benchmark run: the schema and unit, the
/// configuration it ran under, how the compiler was built, the executable,
/// whether debug assertions were on, the workloads and libraries, and the
/// samples, each already in JSON.
pub open spec fn record_json(
    check_moves: bool,
    previews: Seq<String>,
    build: Seq<(String, String)>,
    executable: Seq<char>,
    debug_assertions: bool,
    workloads: Seq<String>,
    libraries: Seq<String>,
    samples: Seq<String>,
) -> Seq<char> {
    "{\"schema_version\":1,\"unit\":\"nanoseconds\",\"configuration\":{\"check_moves\":"@ + json_bool(check_moves)
        + ",\"previews\":"@ + json_array(quoted_strings(previews)) + "},\"compiler_build\":{"@ + joined_items(
        build_members(build),
    ) + "},\"executable\":"@ + json_string(executable) + ",\"debug_assertions\":"@ + json_bool(debug_assertions)
        + ",\"workloads\":"@ + json_array(quoted_strings(workloads)) + ",\"libraries\":"@ + json_array(
        quoted_strings(libraries),
    ) + ",\"samples\":"@ + json_array(item_texts(samples)) + "}"@
}

/// A boolean in JSON.
fn boolean(value: bool) -> (result: &'static str)
    ensures
        result@ == json_bool(value),
{
    if value {
        "true"
    } else {
        "false"
    }
}

/// The raw record of a benchmark run, before it is handed to the recorder.
pub fn bench_record(
    check_moves: bool,
    previews: &Vec<String>,
    build: &Vec<(String, String)>,
    executable: &str,
    debug_assertions: bool,
    workloads: &Vec<String>,
    libraries: &Vec<String>,
    samples: &Vec<String>,
) -> (result: String)
    ensures
        result@ == record_json(
            check_moves,
            previews@,
            build@,
            executable@,
            debug_assertions,
            workloads@,
            libraries@,
            samples@,
        ),
{
    let mut members: Vec<String> = Vec::new();
    let mut index: usize = 0;
    while index < build.len()
        invariant
            index <= build@.len(),
            item_texts(members@) == build_members(build@.take(index as int)),
        decreases build.len() - index,
    {
        let mut member = string(build[index].0.as_str());
        member.append(":");
        member.append(string(build[index].1.as_str()).as_str());
        let ghost before = members@;
        members.push(member);
        proof {
            assert(build@.take(index + 1).drop_last() =~= build@.take(index as int));
            assert(item_texts(members@) =~= item_texts(before).push(members@.last()@));
        }
        index += 1;
    }
    assert(build@.take(index as int) =~= build@);
    let mut out = String::from_str("{\"schema_version\":1,\"unit\":\"nanoseconds\",\"configuration\":{\"check_moves\":");
    out.append(boolean(check_moves));
    out.append(",\"previews\":");
    out.append(strings_array(previews).as_str());
    out.append("},\"compiler_build\":{");
    out.append(joined(&members).as_str());
    out.append("},\"executable\":");
    out.append(string(executable).as_str());
    out.append(",\"debug_assertions\":");
    out.append(boolean(debug_assertions));
    out.append(",\"workloads\":");
    out.append(strings_array(workloads).as_str());
    out.append(",\"libraries\":");
    out.append(strings_array(libraries).as_str());
    out.append(",\"samples\":");
    out.append(array(samples).as_str());
    out.append("}");
    out
}

/// Items joined by commas.
fn joined(items: &Vec<String>) -> (result: String)
    ensures
        result@ == joined_items(item_texts(items@)),
{
    let ghost views = item_texts(items@);
    let mut out = String::new();
    let mut index: usize = 0;
    while index < items.len()
        invariant
            index <= items@.len(),
            views == item_texts(items@),
            out@ == joined_items(views.take(index as int)),
        decreases items.len() - index,
    {
        if index > 0 {
            out.append(",");
        }
        out.append(items[index].as_str());
        proof {
            assert(views.take(index + 1).drop_last() =~= views.take(index as int));
            if index == 0 {
                assert(joined_items(views.take(0)) =~= Seq::<char>::empty());
            }
            assert(out@ =~= joined_items(views.take(index + 1)));
        }
        index += 1;
    }
    assert(views.take(index as int) =~= views);
    out
}
} // verus!
