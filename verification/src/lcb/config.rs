//! What a node is started with: its command line and its settings file.

use crate::lcb::config_error::{ConfigError, Fault};
use crate::lcb::hosts::{Node, Nodes};
use crate::lcb::text::{
    byte_views, is_text, lines_of, number_of, parse_number, split_lines, split_words, words_of,
    IntErrorKind,
};
use std::collections::HashMap;
use vstd::prelude::*;
use vstd::utf8::{encode_utf8, valid_utf8};

verus! {

broadcast use vstd::std_specs::hash::group_hash_axioms;

/// The command line of a node.
#[derive(Debug)]
pub struct ProgramArgs {
    pub id: u32,
    pub hosts: String,
    pub output: String,
    pub config: String,
}

/// A command line as mathematical values.
pub struct ArgsView {
    pub id: u32,
    pub hosts: Seq<char>,
    pub output: Seq<char>,
    pub config: Seq<char>,
}

impl View for ProgramArgs {
    type V = ArgsView;

    open spec fn view(&self) -> ArgsView {
        ArgsView { id: self.id, hosts: self.hosts@, output: self.output@, config: self.config@ }
    }
}

/// The contents of a list of texts.
pub open spec fn text_views(list: Seq<String>) -> Seq<Seq<char>> {
    list.map_values(|s: String| s@)
}

/// Whether `word` is one of the four flags.
pub open spec fn is_flag(word: Seq<char>) -> bool {
    word == "--id"@ || word == "--hosts"@ || word == "--output"@ || word == "--config"@
}

/// What the words from place 1 to before place `upto` say: each flag gives
/// the word behind it to its field, and a later flag wins over an earlier.
/// The id must spell a number.
pub open spec fn scan_args(args: Seq<Seq<char>>, upto: int) -> Result<ArgsView, IntErrorKind>
    decreases upto,
{
    if upto <= 1 {
        Ok(ArgsView { id: 0, hosts: Seq::empty(), output: Seq::empty(), config: Seq::empty() })
    } else {
        match scan_args(args, upto - 1) {
            Err(why) => Err(why),
            Ok(before) => {
                let flag = args[upto - 1];
                let value = args[upto];
                if flag == "--id"@ {
                    match number_of(encode_utf8(value)) {
                        Err(why) => Err(why),
                        Ok(id) => Ok(ArgsView { id, ..before }),
                    }
                } else if flag == "--hosts"@ {
                    Ok(ArgsView { hosts: value, ..before })
                } else if flag == "--output"@ {
                    Ok(ArgsView { output: value, ..before })
                } else if flag == "--config"@ {
                    Ok(ArgsView { config: value, ..before })
                } else {
                    Ok(before)
                }
            },
        }
    }
}

/// What a command line says: it has the program's name and eight words
/// more, or it is refused.
pub open spec fn read_args(args: Seq<Seq<char>>) -> Result<ArgsView, ConfigError> {
    if args.len() != 9 {
        Err(ConfigError::WrongArgsNumber)
    } else {
        match scan_args(args, 9) {
            Err(why) => Err(ConfigError::ParseInt(why)),
            Ok(found) => Ok(found),
        }
    }
}

impl ProgramArgs {
    /// Reads the command line `args`, the program's name first. The last
    /// word of nine is a value, not a flag.
    pub fn parse(args: &Vec<String>) -> (r: Result<ProgramArgs, ConfigError>)
        requires
            args@.len() == 9 ==> !is_flag(args@[8]@),
        ensures
            match r {
                Ok(found) => read_args(text_views(args@)) == Ok::<ArgsView, ConfigError>(found@),
                Err(e) => read_args(text_views(args@)) == Err::<ArgsView, ConfigError>(e),
            },
    {
        if args.len() != 9 {
            return Err(ConfigError::WrongArgsNumber);
        }
        let ghost words = text_views(args@);
        let id_flag = "--id".to_owned();
        let hosts_flag = "--hosts".to_owned();
        let output_flag = "--output".to_owned();
        let config_flag = "--config".to_owned();
        let mut found = ProgramArgs {
            id: 0,
            hosts: String::new(),
            output: String::new(),
            config: String::new(),
        };
        let mut i: usize = 1;
        while i < args.len()
            invariant
                1 <= i <= 9,
                args@.len() == 9,
                !is_flag(args@[8]@),
                words == text_views(args@),
                id_flag@ == "--id"@,
                hosts_flag@ == "--hosts"@,
                output_flag@ == "--output"@,
                config_flag@ == "--config"@,
                scan_args(words, i as int) == Ok::<ArgsView, IntErrorKind>(found@),
            decreases args.len() - i,
        {
            assert(words[i as int] == args@[i as int]@);
            if args[i] == id_flag {
                assert(words[i + 1] == args@[i + 1]@);
                match parse_number(args[i + 1].as_str().as_bytes()) {
                    Ok(id) => {
                        found.id = id;
                    },
                    Err(why) => {
                        proof {
                            lemma_args_error_stays(words, i + 1, 9);
                        }
                        return Err(ConfigError::ParseInt(why));
                    },
                }
            } else if args[i] == hosts_flag {
                assert(words[i + 1] == args@[i + 1]@);
                found.hosts = args[i + 1].clone();
            } else if args[i] == output_flag {
                assert(words[i + 1] == args@[i + 1]@);
                found.output = args[i + 1].clone();
            } else if args[i] == config_flag {
                assert(words[i + 1] == args@[i + 1]@);
                found.config = args[i + 1].clone();
            }
            i = i + 1;
        }
        Ok(found)
    }

    /// The node that the command line names as this one.
    pub fn get_current_node<'a>(&self, nodes: &'a Nodes) -> (r: Result<&'a Node, ConfigError>)
        ensures
            match r {
                Ok(node) => nodes.has(self.id) && node@.id == self.id && exists|i: int|
                    0 <= i < nodes@.len() && nodes@[i] == node@,
                Err(e) => !nodes.has(self.id) && e == ConfigError::UndefinedNodeID(self.id),
            },
    {
        match nodes.get(self.id) {
            Some(node) => Ok(node),
            None => Err(ConfigError::UndefinedNodeID(self.id)),
        }
    }
}

/// Once the words up to a place say nothing, neither do the words up to a
/// later place, and for the same reason.
proof fn lemma_args_error_stays(args: Seq<Seq<char>>, from: int, upto: int)
    requires
        from <= upto,
        scan_args(args, from) is Err,
    ensures
        scan_args(args, upto) == scan_args(args, from),
    decreases upto - from,
{
    if from < upto {
        lemma_args_error_stays(args, from, upto - 1);
    }
}

/// The settings of a run over the reliable link alone: how many messages
/// each node sends, and to which node.
#[derive(Debug, Clone, Copy)]
pub struct Config {
    pub messages_count: u32,
    pub receiver_id: u32,
}

/// What a settings file for the link says: its first line is text, and
/// the first two words of that line are the count and the receiver.
pub open spec fn read_config(bytes: Seq<u8>) -> Result<Config, Fault> {
    let lines = lines_of(bytes);
    if lines.len() == 0 {
        Err(Fault::EmptyFile)
    } else if !valid_utf8(lines[0]) {
        Err(Fault::Io)
    } else {
        let words = words_of(lines[0]);
        if words.len() == 0 {
            Err(Fault::NoMessageCount)
        } else {
            match number_of(words[0]) {
                Err(why) => Err(Fault::ParseInt(why)),
                Ok(messages_count) => if words.len() < 2 {
                    Err(Fault::NoReceiverID)
                } else {
                    match number_of(words[1]) {
                        Err(why) => Err(Fault::ParseInt(why)),
                        Ok(receiver_id) => Ok(Config { messages_count, receiver_id }),
                    }
                },
            }
        }
    }
}

impl Config {
    /// Reads the settings from the bytes of the file.
    pub fn read(bytes: &[u8]) -> (r: Result<Config, ConfigError>)
        ensures
            match r {
                Ok(config) => read_config(bytes@) == Ok::<Config, Fault>(config),
                Err(e) => read_config(bytes@) is Err && e.is_fault(read_config(bytes@)->Err_0),
            },
    {
        let lines = split_lines(bytes);
        if lines.len() == 0 {
            return Err(ConfigError::EmptyFile);
        }
        assert(byte_views(lines@)[0] == lines@[0]@);
        if !is_text(&lines[0]) {
            return Err(ConfigError::bad_text());
        }
        let words = split_words(lines[0].as_slice());
        if words.len() == 0 {
            return Err(ConfigError::NoMessageCount);
        }
        assert(byte_views(words@)[0] == words@[0]@);
        let messages_count = match parse_number(words[0].as_slice()) {
            Ok(n) => n,
            Err(why) => {
                return Err(ConfigError::ParseInt(why));
            },
        };
        if words.len() < 2 {
            return Err(ConfigError::NoReceiverID);
        }
        assert(byte_views(words@)[1] == words@[1]@);
        let receiver_id = match parse_number(words[1].as_slice()) {
            Ok(n) => n,
            Err(why) => {
                return Err(ConfigError::ParseInt(why));
            },
        };
        Ok(Config { messages_count, receiver_id })
    }
}

/// The numbers that the words spell, or why the first word that spells
/// none does not.
pub open spec fn numbers_of(words: Seq<Seq<u8>>) -> Result<Seq<u32>, IntErrorKind>
    decreases words.len(),
{
    if words.len() == 0 {
        Ok(Seq::empty())
    } else {
        match numbers_of(words.drop_last()) {
            Err(why) => Err(why),
            Ok(before) => match number_of(words.last()) {
                Err(why) => Err(why),
                Ok(n) => Ok(before.push(n)),
            },
        }
    }
}

/// The dependencies that the lines list, one list for each line, or what is
/// wrong with the first line that lists none: it is no text, or one of its
/// words spells no number.
pub open spec fn dependency_lists(lines: Seq<Seq<u8>>) -> Result<Seq<Seq<u32>>, Fault>
    decreases lines.len(),
{
    if lines.len() == 0 {
        Ok(Seq::empty())
    } else {
        match dependency_lists(lines.drop_last()) {
            Err(fault) => Err(fault),
            Ok(before) => if !valid_utf8(lines.last()) {
                Err(Fault::Io)
            } else {
                match numbers_of(words_of(lines.last())) {
                    Err(why) => Err(Fault::ParseInt(why)),
                    Ok(list) => Ok(before.push(list)),
                }
            },
        }
    }
}

/// What a settings file for the causal broadcast says: its first line is
/// the number of messages, and each line after it lists what one process
/// depends on.
pub open spec fn read_lcb(bytes: Seq<u8>) -> Result<(u32, Seq<Seq<u32>>), Fault> {
    let lines = lines_of(bytes);
    if lines.len() == 0 {
        Err(Fault::NoMessageCount)
    } else if !valid_utf8(lines[0]) {
        Err(Fault::Io)
    } else {
        match number_of(lines[0]) {
            Err(why) => Err(Fault::ParseInt(why)),
            Ok(count) => match dependency_lists(lines.skip(1)) {
                Err(fault) => Err(fault),
                Ok(lists) => Ok((count, lists)),
            },
        }
    }
}

/// `process`, once for each time that `list` names `dep`.
pub open spec fn mentions(list: Seq<u32>, dep: u32, process: u32) -> Seq<u32>
    decreases list.len(),
{
    if list.len() == 0 {
        Seq::empty()
    } else if list.last() == dep {
        mentions(list.drop_last(), dep, process).push(process)
    } else {
        mentions(list.drop_last(), dep, process)
    }
}

/// The processes that depend on `dep`: the process of list number n,
/// counted from 1, is n, and it stands once for each time that its list
/// names `dep`.
pub open spec fn dependents_of(lists: Seq<Seq<u32>>, dep: u32) -> Seq<u32>
    decreases lists.len(),
{
    if lists.len() == 0 {
        Seq::empty()
    } else {
        dependents_of(lists.drop_last(), dep) + mentions(lists.last(), dep, lists.len() as u32)
    }
}

/// The settings of a run of the causal broadcast.
#[derive(Debug)]
pub struct ConfigLcb {
    pub messages_count: u32,
    /// For each process, the processes that it depends on.
    pub causality_map: HashMap<u32, Vec<u32>>,
    /// For each process, the processes that depend on it.
    pub inverted_causality_map: HashMap<u32, Vec<u32>>,
}

impl ConfigLcb {
    /// Whether the two tables are those of `lists`, list number n being
    /// that of process n.
    pub open spec fn holds(&self, lists: Seq<Seq<u32>>) -> bool {
        &&& forall|process: u32| #[trigger]
            self.causality_map@.contains_key(process) <==> 1 <= process <= lists.len()
        &&& forall|process: u32|
            1 <= process <= lists.len() ==> (#[trigger] self.causality_map@[process])@
                == lists[process - 1]
        &&& forall|dep: u32| #[trigger]
            self.inverted_causality_map@.contains_key(dep) <==> dependents_of(lists, dep).len() > 0
        &&& forall|dep: u32|
            self.inverted_causality_map@.contains_key(dep) ==> (
            #[trigger] self.inverted_causality_map@[dep])@ == dependents_of(lists, dep)
    }

    /// Reads the settings from the bytes of the file. The first line is the
    /// number of messages. Each line after it lists what one process
    /// depends on: the first such line is for process 1, the next for
    /// process 2, and so on.
    pub fn read(bytes: &[u8]) -> (r: Result<ConfigLcb, ConfigError>)
        requires
            bytes@.len() <= u32::MAX,
        ensures
            match r {
                Ok(config) => read_lcb(bytes@) matches Ok(found) && config.messages_count
                    == found.0 && config.holds(found.1),
                Err(e) => read_lcb(bytes@) is Err && e.is_fault(read_lcb(bytes@)->Err_0),
            },
    {
        let lines = split_lines(bytes);
        proof {
            lemma_lines_bound(bytes@);
        }
        if lines.len() == 0 {
            return Err(ConfigError::NoMessageCount);
        }
        assert(byte_views(lines@)[0] == lines@[0]@);
        if !is_text(&lines[0]) {
            return Err(ConfigError::bad_text());
        }
        let messages_count = match parse_number(lines[0].as_slice()) {
            Ok(n) => n,
            Err(why) => {
                return Err(ConfigError::ParseInt(why));
            },
        };
        let ghost rest = lines_of(bytes@).skip(1);
        assert(rest.len() == lines.len() - 1);
        let mut config = ConfigLcb {
            messages_count,
            causality_map: HashMap::new(),
            inverted_causality_map: HashMap::new(),
        };
        let ghost mut lists: Seq<Seq<u32>> = Seq::empty();
        let mut k: usize = 1;
        assert(rest.take(0) =~= Seq::<Seq<u8>>::empty());
        while k < lines.len()
            invariant
                1 <= k <= lines.len(),
                lines.len() <= u32::MAX,
                byte_views(lines@) == lines_of(bytes@),
                rest == lines_of(bytes@).skip(1),
                rest.len() == lines.len() - 1,
                valid_utf8(lines_of(bytes@)[0]),
                number_of(lines_of(bytes@)[0]) == Ok::<u32, IntErrorKind>(messages_count),
                config.messages_count == messages_count,
                dependency_lists(rest.take(k - 1)) == Ok::<Seq<Seq<u32>>, Fault>(lists),
                lists.len() == k - 1,
                config.holds(lists),
            decreases lines.len() - k,
        {
            assert(byte_views(lines@)[k as int] == lines@[k as int]@);
            assert(rest[k - 1] == lines@[k as int]@);
            assert(rest.take(k as int).drop_last() =~= rest.take(k - 1));
            assert(rest.take(k as int).last() == rest[k - 1]);
            if !is_text(&lines[k]) {
                proof {
                    lemma_lists_error_stays(rest, k as int);
                }
                return Err(ConfigError::bad_text());
            }
            let words = split_words(lines[k].as_slice());
            let process = k as u32;
            let mut dependencies: Vec<u32> = Vec::new();
            let mut j: usize = 0;
            assert(words_of(rest[k - 1]).take(0) =~= Seq::<Seq<u8>>::empty());
            while j < words.len()
                invariant
                    j <= words.len(),
                    0 <= k - 1 < rest.len(),
                    lines_of(bytes@).len() > 0,
                    number_of(lines_of(bytes@)[0]) == Ok::<u32, IntErrorKind>(messages_count),
                    valid_utf8(lines_of(bytes@)[0]),
                    valid_utf8(rest[k - 1]),
                    rest == lines_of(bytes@).skip(1),
                    dependency_lists(rest.take(k - 1)) == Ok::<Seq<Seq<u32>>, Fault>(lists),
                    byte_views(words@) == words_of(rest[k - 1]),
                    numbers_of(words_of(rest[k - 1]).take(j as int)) == Ok::<
                        Seq<u32>,
                        IntErrorKind,
                    >(dependencies@),
                decreases words.len() - j,
            {
                let ghost all = words_of(rest[k - 1]);
                assert(byte_views(words@)[j as int] == words@[j as int]@);
                assert(all.take(j + 1).drop_last() =~= all.take(j as int));
                match parse_number(words[j].as_slice()) {
                    Ok(n) => {
                        dependencies.push(n);
                    },
                    Err(why) => {
                        proof {
                            lemma_numbers_error_stays(all, j + 1);
                            assert(rest.take(k as int).drop_last() =~= rest.take(k - 1));
                            assert(rest.take(k as int).last() == rest[k - 1]);
                            lemma_lists_error_stays(rest, k as int);
                        }
                        return Err(ConfigError::ParseInt(why));
                    },
                }
                j = j + 1;
            }
            assert(words_of(rest[k - 1]).take(j as int) =~= words_of(rest[k - 1]));
            let ghost list = dependencies@;
            let ghost grown = lists.push(list);
            assert(grown.drop_last() =~= lists);
            let mut d: usize = 0;
            assert(list.take(0) =~= Seq::<u32>::empty());
            while d < dependencies.len()
                invariant
                    d <= dependencies.len(),
                    dependencies@ == list,
                    process == k,
                    lists.len() == k - 1,
                    k <= u32::MAX,
                    config.messages_count == messages_count,
                    forall|p: u32| #[trigger]
                        config.causality_map@.contains_key(p) <==> 1 <= p <= lists.len(),
                    forall|p: u32|
                        1 <= p <= lists.len() ==> (#[trigger] config.causality_map@[p])@ == lists[p
                            - 1],
                    forall|dep: u32| #[trigger]
                        config.inverted_causality_map@.contains_key(dep) <==> (dependents_of(
                            lists,
                            dep,
                        ) + mentions(list.take(d as int), dep, process)).len() > 0,
                    forall|dep: u32|
                        config.inverted_causality_map@.contains_key(dep) ==> (
                        #[trigger] config.inverted_causality_map@[dep])@ == dependents_of(
                            lists,
                            dep,
                        ) + mentions(list.take(d as int), dep, process),
                decreases dependencies.len() - d,
            {
                let dep = dependencies[d];
                let ghost before = config.inverted_causality_map@;
                assert(list.take(d + 1).drop_last() =~= list.take(d as int));
                let mut waiting = match config.inverted_causality_map.remove(&dep) {
                    Some(found) => found,
                    None => Vec::new(),
                };
                assert(waiting@ =~= dependents_of(lists, dep) + mentions(
                    list.take(d as int),
                    dep,
                    process,
                ));
                waiting.push(process);
                assert(waiting@ =~= dependents_of(lists, dep) + mentions(
                    list.take(d + 1),
                    dep,
                    process,
                ));
                config.inverted_causality_map.insert(dep, waiting);
                assert forall|other: u32|
                    config.inverted_causality_map@.contains_key(other) implies (
                #[trigger] config.inverted_causality_map@[other])@ == dependents_of(lists, other)
                    + mentions(list.take(d + 1), other, process) by {
                    if other != dep {
                        assert(before.contains_key(other));
                    }
                }
                assert forall|other: u32| #[trigger]
                    config.inverted_causality_map@.contains_key(other) <==> (dependents_of(
                        lists,
                        other,
                    ) + mentions(list.take(d + 1), other, process)).len() > 0 by {
                    if other != dep {
                        assert(before.contains_key(other) <==> config.inverted_causality_map@.contains_key(
                            other,
                        ));
                    }
                }
                d = d + 1;
            }
            assert(list.take(d as int) =~= list);
            config.causality_map.insert(process, dependencies);
            proof {
                lists = grown;
                assert forall|p: u32|
                    1 <= p <= lists.len() implies (#[trigger] config.causality_map@[p])@ == lists[p
                    - 1] by {}
            }
            k = k + 1;
        }
        assert(rest.take(k - 1) =~= rest);
        Ok(config)
    }
}

/// A file has no more lines than bytes.
proof fn lemma_lines_bound(bytes: Seq<u8>)
    ensures
        lines_of(bytes).len() <= bytes.len(),
{
    lemma_scan_lines_bound(bytes);
}

/// The lines that end within a file, and the bytes behind them, are no
/// more than the bytes of the file.
proof fn lemma_scan_lines_bound(bytes: Seq<u8>)
    ensures
        crate::lcb::text::scan_lines(bytes).0.len() + crate::lcb::text::scan_lines(bytes).1.len()
            <= bytes.len(),
    decreases bytes.len(),
{
    if bytes.len() > 0 {
        lemma_scan_lines_bound(bytes.drop_last());
    }
}

/// Once a word spells no number, the words up to any later one spell
/// none, and for the same reason.
proof fn lemma_numbers_error_stays(words: Seq<Seq<u8>>, n: int)
    requires
        0 <= n <= words.len(),
        numbers_of(words.take(n)) is Err,
    ensures
        numbers_of(words) == numbers_of(words.take(n)),
    decreases words.len() - n,
{
    if n == words.len() {
        assert(words.take(n) =~= words);
    } else {
        assert(words.take(n + 1).drop_last() =~= words.take(n));
        lemma_numbers_error_stays(words, n + 1);
    }
}

/// Once a line holds a word that spells no number, the lines up to any
/// later one list nothing, and for the same reason.
proof fn lemma_lists_error_stays(lines: Seq<Seq<u8>>, n: int)
    requires
        0 <= n <= lines.len(),
        dependency_lists(lines.take(n)) is Err,
    ensures
        dependency_lists(lines) == dependency_lists(lines.take(n)),
    decreases lines.len() - n,
{
    if n == lines.len() {
        assert(lines.take(n) =~= lines);
    } else {
        assert(lines.take(n + 1).drop_last() =~= lines.take(n));
        lemma_lists_error_stays(lines, n + 1);
    }
}

} // verus!
