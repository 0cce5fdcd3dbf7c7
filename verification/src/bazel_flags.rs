//! An index of the flags that Bazel knows, by name, by abbreviation and by
//! command, and the rendering of a flag's documentation.
use vstd::hash_map::StringHashMap;
use vstd::prelude::*;
use vstd::string::*;

verus! {

/// What Bazel tells about one of its flags.
#[derive(Clone, Debug, PartialEq, Eq)]
pub struct FlagInfo {
    /// The name of the flag, without leading dashes.
    pub name: String,
    /// Whether `--no<name>` exists too; absent means that it does not.
    pub has_negative_flag: Option<bool>,
    /// The help text of the flag.
    pub documentation: Option<String>,
    /// The commands that accept the flag.
    pub commands: Vec<String>,
    /// The abbreviation of the flag, without the leading dash.
    pub abbreviation: Option<String>,
    /// Whether the flag may occur several times in one argument list.
    pub allows_multiple: Option<bool>,
    pub effect_tags: Vec<String>,
    pub metadata_tags: Vec<String>,
    pub documentation_category: Option<String>,
}

/// The flags of Bazel, with three ways to find one.
///
/// `flags_by_name` and `flags_by_abbreviation` lead from a name to the index
/// of a flag in `flags`, `flags_by_commands` from a command to the indices of
/// the flags that the command accepts.
pub struct BazelFlags {
    pub flags: Vec<FlagInfo>,
    pub flags_by_commands: StringHashMap<Vec<usize>>,
    pub flags_by_name: StringHashMap<usize>,
    pub flags_by_abbreviation: StringHashMap<usize>,
}

/// What `str::to_lowercase` returns for a string: its lowercase equivalent as
/// the Unicode character database of the standard library defines it.
pub uninterp spec fn lowercase(s: Seq<char>) -> Seq<char>;

/// `str::to_lowercase`: the result is a function of the string alone, which
/// [`lowercase`] names. Nothing more is claimed of it.
#[verifier::external_body]
fn to_lowercase(s: &str) -> (r: String)
    ensures
        r@ == lowercase(s@),
{
    s.to_lowercase()
}

/// The characters of each string of a list.
pub open spec fn strings_view(strings: Seq<String>) -> Seq<Seq<char>> {
    strings.map_values(|s: String| s@)
}

/// The lowercase equivalent of each string of a list.
pub open spec fn lowercase_all(strings: Seq<String>) -> Seq<Seq<char>> {
    strings.map_values(|s: String| lowercase(s@))
}

/// The characters of a string, if there is one.
pub open spec fn opt_string_view(s: Option<String>) -> Option<Seq<char>> {
    match s {
        Some(s) => Some(s@),
        None => None,
    }
}

/// The parts in order, with `sep` between each two of them.
pub open spec fn join(parts: Seq<Seq<char>>, sep: Seq<char>) -> Seq<char>
    decreases parts.len(),
{
    if parts.len() == 0 {
        Seq::empty()
    } else if parts.len() == 1 {
        parts[0]
    } else {
        join(parts.drop_last(), sep) + sep + parts.last()
    }
}

/// A line that lists tags behind a label and ends in a Markdown line break,
/// or nothing where there are no tags.
pub open spec fn tag_line(label: Seq<char>, tags: Seq<Seq<char>>) -> Seq<char> {
    if tags.len() > 0 {
        label + join(tags, ", "@) + "\\\n"@
    } else {
        Seq::empty()
    }
}

impl FlagInfo {
    /// True when `--no<name>` exists too.
    pub open spec fn negatable(&self) -> bool {
        match self.has_negative_flag {
            Some(b) => b,
            None => false,
        }
    }

    /// The first line of the documentation: the flag as it is written on the
    /// command line, its abbreviation and its negation.
    pub open spec fn heading(&self) -> Seq<char> {
        "`--"@ + self.name@ + "`"@ + (match self.abbreviation {
            Some(a) => " [`-"@ + a@ + "`]"@,
            None => Seq::empty(),
        }) + (if self.negatable() {
            ", `--no"@ + self.name@ + "`"@
        } else {
            Seq::empty()
        })
    }

    /// The documentation of the flag in Markdown, with the tags and the
    /// category as given: the heading, the help text, then the effect tags,
    /// the metadata tags and the category, each on a line of its own and only
    /// where there is one.
    pub open spec fn markdown(
        &self,
        effect_tags: Seq<Seq<char>>,
        metadata_tags: Seq<Seq<char>>,
        category: Option<Seq<char>>,
    ) -> Seq<char> {
        self.heading() + (match self.documentation {
            Some(d) => "\n\n"@ + d@,
            None => Seq::empty(),
        }) + "\n\n"@ + tag_line("Effect tags: "@, effect_tags) + tag_line("Tags: "@, metadata_tags)
            + (match category {
            Some(c) => "Category: "@ + c + "\n"@,
            None => Seq::empty(),
        })
    }

    /// True when `--no<name>` exists too.
    pub fn has_negative_flag(&self) -> (b: bool)
        ensures
            b == self.negatable(),
    {
        match self.has_negative_flag {
            Some(b) => b,
            None => false,
        }
    }

    /// Renders the documentation of the flag in Markdown, with the tags and
    /// the category written as they are given.
    pub fn render_markdown(
        &self,
        effect_tags: &Vec<String>,
        metadata_tags: &Vec<String>,
        category: &Option<String>,
    ) -> (result: String)
        ensures
            result@ == self.markdown(
                strings_view(effect_tags@),
                strings_view(metadata_tags@),
                opt_string_view(*category),
            ),
    {
        let mut result = String::new();
        result.append("`--");
        result.append(self.name.as_str());
        result.append("`");
        match &self.abbreviation {
            Some(a) => {
                result.append(" [`-");
                result.append(a.as_str());
                result.append("`]");
            },
            None => {},
        }
        if self.has_negative_flag() {
            result.append(", `--no");
            result.append(self.name.as_str());
            result.append("`");
        }
        assert(result@ =~= self.heading());
        match &self.documentation {
            Some(d) => {
                result.append("\n\n");
                result.append(d.as_str());
            },
            None => {},
        }
        result.append("\n\n");
        append_tag_line(&mut result, "Effect tags: ", effect_tags);
        append_tag_line(&mut result, "Tags: ", metadata_tags);
        match category {
            Some(c) => {
                result.append("Category: ");
                result.append(c.as_str());
                result.append("\n");
            },
            None => {},
        }
        assert(result@ =~= self.markdown(
            strings_view(effect_tags@),
            strings_view(metadata_tags@),
            opt_string_view(*category),
        ));
        result
    }

    /// Renders the documentation of the flag in Markdown. Tags and category
    /// are written in lowercase.
    pub fn get_documentation_markdown(&self) -> (result: String)
        ensures
            result@ == self.markdown(
                lowercase_all(self.effect_tags@),
                lowercase_all(self.metadata_tags@),
                match self.documentation_category {
                    Some(c) => Some(lowercase(c@)),
                    None => None,
                },
            ),
    {
        let effect_tags = lowercase_each(&self.effect_tags);
        let metadata_tags = lowercase_each(&self.metadata_tags);
        let category = match &self.documentation_category {
            Some(c) => Some(to_lowercase(c.as_str())),
            None => None,
        };
        self.render_markdown(&effect_tags, &metadata_tags, &category)
    }
}

fn lowercase_each(strings: &Vec<String>) -> (r: Vec<String>)
    ensures
        strings_view(r@) == lowercase_all(strings@),
{
    let mut r: Vec<String> = Vec::new();
    let mut i: usize = 0;
    while i < strings.len()
        invariant
            i <= strings.len(),
            r.len() == i,
            forall|j: int| 0 <= j < i ==> r@[j]@ == lowercase(#[trigger] strings@[j]@),
        decreases strings.len() - i,
    {
        r.push(to_lowercase(strings[i].as_str()));
        i = i + 1;
    }
    assert(strings_view(r@) =~= lowercase_all(strings@));
    r
}

fn join_strings(parts: &Vec<String>, sep: &str) -> (r: String)
    ensures
        r@ == join(strings_view(parts@), sep@),
{
    let ghost views = strings_view(parts@);
    let mut r = String::new();
    let mut i: usize = 0;
    while i < parts.len()
        invariant
            i <= parts.len(),
            views == strings_view(parts@),
            r@ == join(views.take(i as int), sep@),
        decreases parts.len() - i,
    {
        proof {
            assert(views.take(i + 1).drop_last() =~= views.take(i as int));
            assert(views.take(i + 1).last() == parts@[i as int]@);
        }
        if i > 0 {
            r.append(sep);
        }
        r.append(parts[i].as_str());
        i = i + 1;
    }
    assert(views.take(i as int) =~= views);
    r
}

fn append_tag_line(out: &mut String, label: &str, tags: &Vec<String>)
    ensures
        final(out)@ == old(out)@ + tag_line(label@, strings_view(tags@)),
{
    if tags.len() > 0 {
        let list = join_strings(tags, ", ");
        out.append(label);
        out.append(list.as_str());
        out.append("\\\n");
        assert(out@ =~= old(out)@ + tag_line(label@, strings_view(tags@)));
    } else {
        assert(out@ =~= old(out)@ + tag_line(label@, strings_view(tags@)));
    }
}

/// The index by name of the first `count` flags: each name leads to the last
/// of these flags that bears it.
pub open spec fn name_index(flags: Seq<FlagInfo>, count: int) -> Map<Seq<char>, usize>
    decreases count,
{
    if count <= 0 {
        Map::empty()
    } else {
        name_index(flags, count - 1).insert(flags[count - 1].name@, (count - 1) as usize)
    }
}

/// The index by abbreviation of the first `count` flags: each abbreviation
/// leads to the last of these flags that bears it.
pub open spec fn abbreviation_index(flags: Seq<FlagInfo>, count: int) -> Map<Seq<char>, usize>
    decreases count,
{
    if count <= 0 {
        Map::empty()
    } else {
        let before = abbreviation_index(flags, count - 1);
        match flags[count - 1].abbreviation {
            Some(a) => before.insert(a@, (count - 1) as usize),
            None => before,
        }
    }
}

/// The index by command after the flag `flag` was entered under the first
/// `count` of the given commands: the flag stands last under each of them.
pub open spec fn enter_commands(
    index: Map<Seq<char>, Seq<usize>>,
    commands: Seq<String>,
    count: int,
    flag: usize,
) -> Map<Seq<char>, Seq<usize>>
    decreases count,
{
    if count <= 0 {
        index
    } else {
        let before = enter_commands(index, commands, count - 1, flag);
        let command = commands[count - 1]@;
        let listed = if before.contains_key(command) {
            before[command]
        } else {
            Seq::empty()
        };
        before.insert(command, listed.push(flag))
    }
}

/// The index by command of the first `count` flags: each command leads to the
/// flags that list it, in the order of the flags.
pub open spec fn command_index(flags: Seq<FlagInfo>, count: int) -> Map<Seq<char>, Seq<usize>>
    decreases count,
{
    if count <= 0 {
        Map::empty()
    } else {
        enter_commands(
            command_index(flags, count - 1),
            flags[count - 1].commands@,
            flags[count - 1].commands@.len() as int,
            (count - 1) as usize,
        )
    }
}

/// The index by name holds every name that one of the first `count` flags
/// bears, and leads from a name to the last of these flags that bears it.
pub proof fn lemma_name_index(flags: Seq<FlagInfo>, count: int)
    requires
        0 <= count <= flags.len(),
        count <= usize::MAX,
    ensures
        forall|i: int|
            0 <= i < count ==> name_index(flags, count).contains_key((#[trigger] flags[i]).name@),
        forall|name: Seq<char>| #[trigger]
            name_index(flags, count).contains_key(name) ==> {
                let i = name_index(flags, count)[name] as int;
                &&& 0 <= i < count
                &&& flags[i].name@ == name
                &&& forall|j: int| i < j < count ==> (#[trigger] flags[j]).name@ != name
            },
    decreases count,
{
    if count > 0 {
        lemma_name_index(flags, count - 1);
    }
}

/// The index by abbreviation holds every abbreviation that one of the first
/// `count` flags bears, and leads from an abbreviation to the last of these
/// flags that bears it.
pub proof fn lemma_abbreviation_index(flags: Seq<FlagInfo>, count: int)
    requires
        0 <= count <= flags.len(),
        count <= usize::MAX,
    ensures
        forall|i: int|
            0 <= i < count && (#[trigger] flags[i]).abbreviation is Some ==> abbreviation_index(
                flags,
                count,
            ).contains_key(flags[i].abbreviation->0@),
        forall|name: Seq<char>| #[trigger]
            abbreviation_index(flags, count).contains_key(name) ==> {
                let i = abbreviation_index(flags, count)[name] as int;
                &&& 0 <= i < count
                &&& flags[i].abbreviation is Some
                &&& flags[i].abbreviation->0@ == name
                &&& forall|j: int|
                    i < j < count && (#[trigger] flags[j]).abbreviation is Some
                        ==> flags[j].abbreviation->0@ != name
            },
    decreases count,
{
    if count > 0 {
        lemma_abbreviation_index(flags, count - 1);
    }
}

/// True when `command` is among the first `count` of the commands.
pub open spec fn lists_command(commands: Seq<String>, count: int, command: Seq<char>) -> bool {
    exists|m: int| 0 <= m < count && (#[trigger] commands[m])@ == command
}

/// Entering a flag under commands keeps what the index held, adds the flag
/// under each of the commands, and adds nothing else.
pub proof fn lemma_enter_commands(
    index: Map<Seq<char>, Seq<usize>>,
    commands: Seq<String>,
    count: int,
    flag: usize,
)
    requires
        0 <= count <= commands.len(),
    ensures
        ({
            let after = enter_commands(index, commands, count, flag);
            &&& forall|c: Seq<char>| #[trigger]
                index.contains_key(c) ==> after.contains_key(c) && index[c].is_prefix_of(after[c])
            &&& forall|c: Seq<char>| #[trigger]
                after.contains_key(c) ==> index.contains_key(c) || lists_command(
                    commands,
                    count,
                    c,
                )
            &&& forall|c: Seq<char>, j: int|
                after.contains_key(c) && 0 <= j < after[c].len() ==> #[trigger] after[c][j] == flag
                    && lists_command(commands, count, c) || index.contains_key(c) && j
                    < index[c].len() && after[c][j] == index[c][j]
            &&& forall|m: int|
                0 <= m < count ==> after.contains_key((#[trigger] commands[m])@)
                    && after[commands[m]@].contains(flag)
        }),
    decreases count,
{
    if count > 0 {
        let before = enter_commands(index, commands, count - 1, flag);
        let after = enter_commands(index, commands, count, flag);
        let command = commands[count - 1]@;
        let listed = if before.contains_key(command) {
            before[command]
        } else {
            Seq::empty()
        };
        lemma_enter_commands(index, commands, count - 1, flag);
        assert(after[command] == listed.push(flag));
        assert(after[command][listed.len() as int] == flag);
        assert(lists_command(commands, count, command));
        assert forall|c: Seq<char>| lists_command(commands, count - 1, c) implies lists_command(
            commands,
            count,
            c,
        ) by {
            let m = choose|m: int| 0 <= m < count - 1 && (#[trigger] commands[m])@ == c;
            assert(commands[m]@ == c);
        }
        assert forall|m: int| 0 <= m < count implies after.contains_key(
            (#[trigger] commands[m])@,
        ) && after[commands[m]@].contains(flag) by {
            let c = commands[m]@;
            if c == command {
            } else {
                let j = choose|j: int| 0 <= j < before[c].len() && before[c][j] == flag;
                assert(after[c][j] == flag);
            }
        }
    }
}

/// The index by command is sound and complete: the flags under a command are
/// flags that list the command, and every flag that lists a command stands
/// under it.
pub proof fn lemma_command_index(flags: Seq<FlagInfo>, count: int)
    requires
        0 <= count <= flags.len(),
        count <= usize::MAX,
    ensures
        ({
            let index = command_index(flags, count);
            &&& forall|c: Seq<char>, j: int|
                index.contains_key(c) && 0 <= j < index[c].len() ==> (#[trigger] index[c][j])
                    < count && lists_command(
                    flags[index[c][j] as int].commands@,
                    flags[index[c][j] as int].commands@.len() as int,
                    c,
                )
            &&& forall|i: int, m: int|
                0 <= i < count && 0 <= m < flags[i].commands@.len() ==> index.contains_key(
                    (#[trigger] flags[i].commands@[m])@,
                ) && index[flags[i].commands@[m]@].contains(i as usize)
        }),
    decreases count,
{
    if count > 0 {
        let before = command_index(flags, count - 1);
        let index = command_index(flags, count);
        let commands = flags[count - 1].commands@;
        lemma_command_index(flags, count - 1);
        lemma_enter_commands(before, commands, commands.len() as int, (count - 1) as usize);
        assert forall|i: int, m: int|
            0 <= i < count && 0 <= m < flags[i].commands@.len() implies index.contains_key(
            (#[trigger] flags[i].commands@[m])@,
        ) && index[flags[i].commands@[m]@].contains(i as usize) by {
            let c = flags[i].commands@[m]@;
            if i < count - 1 {
                assert(before.contains_key(c));
                let j = choose|j: int| 0 <= j < before[c].len() && before[c][j] == i as usize;
                assert(before[c].is_prefix_of(index[c]));
                assert(index[c][j] == i as usize);
            }
        }
    }
}

/// The lists of a command index as sequences.
pub open spec fn lists_view(index: Map<Seq<char>, Vec<usize>>) -> Map<Seq<char>, Seq<usize>> {
    index.map_values(|list: Vec<usize>| list@)
}

/// What is left of an invocation when a trailing `=` is taken off.
pub open spec fn strip_equals(s: Seq<char>) -> Seq<char> {
    if s.len() > 0 && s.last() == '=' {
        s.drop_last()
    } else {
        s
    }
}

/// How a flag is written on the command line: by its name or by its
/// abbreviation.
pub enum Invocation {
    Long(Seq<char>),
    Short(Seq<char>),
}

/// Reads an invocation such as `--name`, `--name=` or `-n`. One without a
/// leading dash, or with more than two, names no flag.
pub open spec fn invocation_of(s: Seq<char>) -> Option<Invocation> {
    let t = strip_equals(s);
    if t.len() >= 2 && t[0] == '-' && t[1] == '-' {
        if t.len() >= 3 && t[2] == '-' {
            None
        } else {
            Some(Invocation::Long(t.skip(2)))
        }
    } else if t.len() >= 1 && t[0] == '-' {
        Some(Invocation::Short(t.skip(1)))
    } else {
        None
    }
}

impl BazelFlags {
    /// True when every index that the three maps hold is an index into `flags`.
    pub open spec fn wf(&self) -> bool {
        &&& forall|k: Seq<char>| #[trigger]
            self.flags_by_name@.contains_key(k) ==> self.flags_by_name@[k] < self.flags@.len()
        &&& forall|k: Seq<char>| #[trigger]
            self.flags_by_abbreviation@.contains_key(k) ==> self.flags_by_abbreviation@[k]
                < self.flags@.len()
        &&& forall|k: Seq<char>, j: int|
            self.flags_by_commands@.contains_key(k) && 0 <= j < self.flags_by_commands@[k]@.len()
                ==> #[trigger] self.flags_by_commands@[k]@[j] < self.flags@.len()
    }

    /// The index of the flag that an invocation names, if there is one.
    pub open spec fn index_of_invocation(&self, s: Seq<char>) -> Option<usize> {
        match invocation_of(s) {
            Some(Invocation::Long(name)) => if self.flags_by_name@.contains_key(name) {
                Some(self.flags_by_name@[name])
            } else {
                None
            },
            Some(Invocation::Short(abbreviation)) => if self.flags_by_abbreviation@.contains_key(
                abbreviation,
            ) {
                Some(self.flags_by_abbreviation@[abbreviation])
            } else {
                None
            },
            None => None,
        }
    }

    /// Builds the three indices over a list of flags.
    pub fn from_flags(flags: Vec<FlagInfo>) -> (r: BazelFlags)
        ensures
            r.flags@ == flags@,
            r.flags_by_name@ == name_index(flags@, flags@.len() as int),
            r.flags_by_abbreviation@ == abbreviation_index(flags@, flags@.len() as int),
            lists_view(r.flags_by_commands@) == command_index(flags@, flags@.len() as int),
            r.wf(),
    {
        let mut by_commands = StringHashMap::<Vec<usize>>::new();
        let mut by_name = StringHashMap::<usize>::new();
        let mut by_abbreviation = StringHashMap::<usize>::new();
        let mut i: usize = 0;
        proof {
            assert(lists_view(by_commands@) =~= command_index(flags@, 0));
        }
        while i < flags.len()
            invariant
                i <= flags.len(),
                by_name@ == name_index(flags@, i as int),
                by_abbreviation@ == abbreviation_index(flags@, i as int),
                lists_view(by_commands@) == command_index(flags@, i as int),
                forall|k: Seq<char>| #[trigger] by_name@.contains_key(k) ==> by_name@[k] < i,
                forall|k: Seq<char>| #[trigger]
                    by_abbreviation@.contains_key(k) ==> by_abbreviation@[k] < i,
                forall|k: Seq<char>, j: int|
                    by_commands@.contains_key(k) && 0 <= j < by_commands@[k]@.len()
                        ==> #[trigger] by_commands@[k]@[j] < i,
            decreases flags.len() - i,
        {
            let flag = &flags[i];
            let mut j: usize = 0;
            while j < flag.commands.len()
                invariant
                    i < flags.len(),
                    *flag == flags@[i as int],
                    j <= flag.commands.len(),
                    lists_view(by_commands@) == enter_commands(
                        command_index(flags@, i as int),
                        flag.commands@,
                        j as int,
                        i,
                    ),
                    forall|k: Seq<char>, j: int|
                        by_commands@.contains_key(k) && 0 <= j < by_commands@[k]@.len()
                            ==> #[trigger] by_commands@[k]@[j] <= i,
                decreases flag.commands.len() - j,
            {
                let command = &flag.commands[j];
                let ghost before = by_commands@;
                let mut list: Vec<usize> = match by_commands.get(command.as_str()) {
                    Some(listed) => listed.clone(),
                    None => Vec::new(),
                };
                let ghost listed: Seq<usize> = if before.contains_key(command@) {
                    before[command@]@
                } else {
                    Seq::empty()
                };
                assert(list@ =~= listed);
                list.push(i);
                by_commands.insert(command.clone(), list);
                proof {
                    assert(lists_view(by_commands@) =~= lists_view(before).insert(
                        command@,
                        listed.push(i),
                    ));
                }
                j = j + 1;
            }
            by_name.insert(flag.name.clone(), i);
            match &flag.abbreviation {
                Some(a) => {
                    by_abbreviation.insert(a.clone(), i);
                },
                None => {},
            }
            i = i + 1;
        }
        BazelFlags {
            flags,
            flags_by_commands: by_commands,
            flags_by_name: by_name,
            flags_by_abbreviation: by_abbreviation,
        }
    }

    /// Finds the flag that an invocation such as `--name`, `--name=` or `-n`
    /// names.
    pub fn get_by_invocation(&self, s: &str) -> (r: Option<&FlagInfo>)
        requires
            self.wf(),
        ensures
            match r {
                Some(flag) => self.index_of_invocation(s@) is Some && *flag == self.flags@[self.index_of_invocation(
                    s@,
                )->0 as int],
                None => self.index_of_invocation(s@) is None,
            },
    {
        let len = s.unicode_len();
        let end = if len > 0 && s.get_char(len - 1) == '=' {
            len - 1
        } else {
            len
        };
        let ghost t = strip_equals(s@);
        assert(t =~= s@.subrange(0, end as int));
        if end >= 2 && s.get_char(0) == '-' && s.get_char(1) == '-' {
            if end >= 3 && s.get_char(2) == '-' {
                return None;
            }
            let name = s.substring_char(2, end);
            assert(name@ =~= t.skip(2));
            match self.flags_by_name.get(name) {
                Some(i) => Some(&self.flags[*i]),
                None => None,
            }
        } else if end >= 1 && s.get_char(0) == '-' {
            let abbreviation = s.substring_char(1, end);
            assert(abbreviation@ =~= t.skip(1));
            match self.flags_by_abbreviation.get(abbreviation) {
                Some(i) => Some(&self.flags[*i]),
                None => None,
            }
        } else {
            None
        }
    }
}

} // verus!
