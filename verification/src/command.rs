//! How the remote shell's bash is started: its prompt, its arguments and its environment.
use vstd::prelude::*;
use vstd::string::*;
use vstd::utf8::*;

use crate::text::join;

verus! {

/// The prompt of the remote shell, with or without colour.
pub open spec fn prompt_text(color: bool) -> Seq<char> {
    if color {
        r"\[\e[0;38;5;242m\][rpty] \[\e[0;92m\]\u\[\e[0;92m\]@\[\e[0;92m\]\H\[\e[0m\]:\[\e[0;38;5;39m\]\w\[\e[0m\]\$ \[\e[0m\]"@
    } else {
        r"[rpty] \u@\H:\w\$ "@
    }
}

/// The prompt of the remote shell, with or without colour.
pub fn prompt(color: bool) -> (s: &'static str)
    ensures
        s@ == prompt_text(color),
{
    if color {
        r"\[\e[0;38;5;242m\][rpty] \[\e[0;92m\]\u\[\e[0;92m\]@\[\e[0;92m\]\H\[\e[0m\]:\[\e[0;38;5;39m\]\w\[\e[0m\]\$ \[\e[0m\]"
    } else {
        r"[rpty] \u@\H:\w\$ "
    }
}

/// What a run of bash is told.
pub struct RptyCommandConfig {
    /// The socket on which bash reports its terminals.
    pub sock_path: String,
    /// The kind of terminal.
    pub term: String,
    /// The prompt.
    pub ps1: &'static str,
}

impl RptyCommandConfig {
    /// What a shell on the socket `sock_path` is told.
    pub fn new(sock_path: String, term: &str, color: bool) -> (r: Self)
        ensures
            r.sock_path == sock_path,
            r.term@ == term@,
            r.ps1@ == prompt_text(color),
    {
        RptyCommandConfig { sock_path, term: term.to_owned(), ps1: prompt(color) }
    }

    /// The variables that bash is given, each with its value, as text.
    pub open spec fn variables(&self) -> Seq<(Seq<char>, Seq<char>)> {
        seq![
            ("RPTY_TRANSPORT"@, "unix:"@ + self.sock_path@),
            ("TERM"@, self.term@),
            ("PS1"@, self.ps1@),
        ]
    }
}

/// A program to start: what it is, its arguments, and the variables that are set for it on top
/// of those that it inherits. It gets no input and its output is dropped.
pub struct RptyCommand {
    pub program: String,
    pub args: Vec<&'static str>,
    pub env: Vec<(&'static str, String)>,
}

impl RptyCommand {
    /// The arguments, as text.
    pub open spec fn args_text(&self) -> Seq<Seq<char>> {
        self.args@.map_values(|s: &'static str| s@)
    }

    /// The variables, as text.
    pub open spec fn env_text(&self) -> Seq<(Seq<char>, Seq<char>)> {
        self.env@.map_values(|v: (&'static str, String)| (v.0@, v.1@))
    }
}

/// The arguments of bash: it reads no start-up files.
pub open spec fn bash_args() -> Seq<Seq<char>> {
    seq!["--noprofile"@, "--norc"@]
}

/// The variables that bash is given.
pub fn overrides(config: &RptyCommandConfig) -> (v: Vec<(&'static str, String)>)
    ensures
        v@.map_values(|v: (&'static str, String)| (v.0@, v.1@)) == config.variables(),
        v@.len() == 3,
        v@[0].0@ == "RPTY_TRANSPORT"@ && v@[0].1@ == "unix:"@ + config.sock_path@,
        v@[1].0@ == "TERM"@ && v@[1].1@ == config.term@,
        v@[2].0@ == "PS1"@ && v@[2].1@ == config.ps1@,
{
    let mut v: Vec<(&'static str, String)> = Vec::new();
    v.push(("RPTY_TRANSPORT", join("unix:", config.sock_path.as_str())));
    v.push(("TERM", config.term.clone()));
    v.push(("PS1", config.ps1.to_owned()));
    assert(v@.map_values(|v: (&'static str, String)| (v.0@, v.1@)) =~= config.variables());
    v
}

/// The bash at `path`, started as `config` says.
pub fn create_rpty_command(path: &str, config: &RptyCommandConfig) -> (r: RptyCommand)
    ensures
        r.program@ == path@,
        r.args_text() == bash_args(),
        r.env_text() == config.variables(),
        r.args@.len() == 2 && r.args@[0]@ == "--noprofile"@ && r.args@[1]@ == "--norc"@,
        r.env@.len() == 3,
        r.env@[0].0@ == "RPTY_TRANSPORT"@ && r.env@[0].1@ == "unix:"@ + config.sock_path@,
        r.env@[1].0@ == "TERM"@ && r.env@[1].1@ == config.term@,
        r.env@[2].0@ == "PS1"@ && r.env@[2].1@ == config.ps1@,
{
    let mut args: Vec<&'static str> = Vec::new();
    args.push("--noprofile");
    args.push("--norc");
    let r = RptyCommand { program: path.to_owned(), args, env: overrides(config) };
    assert(r.args_text() =~= bash_args());
    r
}

/// A variable and its value, as bytes.
pub type Variable = (Seq<u8>, Seq<u8>);

/// The variables of an environment, as bytes.
pub open spec fn env_bytes(env: Seq<(Vec<u8>, Vec<u8>)>) -> Seq<Variable> {
    env.map_values(|v: (Vec<u8>, Vec<u8>)| (v.0@, v.1@))
}

impl RptyCommandConfig {
    /// The variables that bash is given, as bytes.
    pub open spec fn variable_bytes(&self) -> Seq<Variable> {
        self.variables().map_values(|v: (Seq<char>, Seq<char>)| (encode_utf8(v.0), encode_utf8(v.1)))
    }
}

/// Variables that are given as text, as bytes.
pub open spec fn change_bytes(changes: Seq<(&'static str, String)>) -> Seq<Variable> {
    changes.map_values(|v: (&'static str, String)| (encode_utf8(v.0@), encode_utf8(v.1@)))
}

/// `name` is the name of a variable of `env`.
pub open spec fn is_set(env: Seq<Variable>, name: Seq<u8>) -> bool {
    exists|i: int| 0 <= i < env.len() && (#[trigger] env[i]).0 == name
}

/// The variables of `env` that are not set anew by `changes`.
pub open spec fn kept(env: Seq<Variable>, changes: Seq<Variable>) -> Seq<Variable> {
    env.filter(|v: Variable| !is_set(changes, v.0))
}

/// The environment of bash: what it inherits, less what is set anew, then what is set anew.
pub open spec fn bash_env(inherited: Seq<Variable>, changes: Seq<Variable>) -> Seq<Variable> {
    kept(inherited, changes) + changes
}

/// A variable as a process is handed it.
pub open spec fn entry(v: Variable) -> Seq<u8> {
    v.0 + seq![61u8] + v.1
}

/// Every variable as a process is handed it.
pub open spec fn entries(env: Seq<Variable>) -> Seq<Seq<u8>> {
    env.map_values(|v: Variable| entry(v))
}

/// The byte that ends a string in memory, and so cannot stand inside one.
pub open spec fn has_nul(bytes: Seq<u8>) -> bool {
    bytes.contains(0u8)
}

/// Some variable cannot be handed to a process.
pub open spec fn some_nul(env: Seq<Variable>) -> bool {
    exists|i: int| 0 <= i < env.len() && has_nul(entry(#[trigger] env[i]))
}

/// A variable holds a byte that ends a string.
#[derive(Clone, Copy, Debug, PartialEq, Eq, Structural)]
pub struct NulInVariable;

impl NulInVariable {
    /// What is told of the fault.
    pub fn message(self) -> (s: &'static str)
        ensures
            s@ == "environment variable contained nul byte"@,
    {
        "environment variable contained nul byte"
    }
}

/// Whether two runs of bytes are the same.
pub(crate) fn same_bytes(a: &[u8], b: &[u8]) -> (r: bool)
    ensures
        r == (a@ == b@),
{
    if a.len() != b.len() {
        return false;
    }
    let mut i: usize = 0;
    while i < a.len()
        invariant
            i <= a@.len() == b@.len(),
            forall|j: int| 0 <= j < i ==> a@[j] == b@[j],
        decreases a@.len() - i,
    {
        if a[i] != b[i] {
            return false;
        }
        i = i + 1;
    }
    assert(a@ =~= b@);
    true
}

/// Appends `tail` to `bytes`.
fn push_all(bytes: &mut Vec<u8>, tail: &[u8])
    ensures
        final(bytes)@ == old(bytes)@ + tail@,
{
    let mut i: usize = 0;
    while i < tail.len()
        invariant
            i <= tail@.len(),
            bytes@ == old(bytes)@ + tail@.take(i as int),
        decreases tail@.len() - i,
    {
        bytes.push(tail[i]);
        i = i + 1;
        assert(bytes@ == old(bytes)@ + tail@.take(i as int));
    }
    assert(tail@.take(tail@.len() as int) == tail@);
}

/// Whether a byte of `bytes` ends a string.
fn nul_in(bytes: &Vec<u8>) -> (r: bool)
    ensures
        r == has_nul(bytes@),
{
    let mut i: usize = 0;
    while i < bytes.len()
        invariant
            i <= bytes@.len(),
            forall|j: int| 0 <= j < i ==> bytes@[j] != 0,
        decreases bytes@.len() - i,
    {
        if bytes[i] == 0 {
            assert(bytes@[i as int] == 0);
            return true;
        }
        i = i + 1;
    }
    false
}

/// A variable as a process is handed it.
fn make_entry(name: &[u8], value: &[u8]) -> (r: Vec<u8>)
    ensures
        r@ == entry((name@, value@)),
{
    let mut bytes: Vec<u8> = Vec::new();
    push_all(&mut bytes, name);
    bytes.push(61);
    push_all(&mut bytes, value);
    assert(bytes@ =~= entry((name@, value@)));
    bytes
}

/// Whether `changes` sets the variable `name`.
fn sets(changes: &Vec<(&'static str, String)>, name: &[u8]) -> (r: bool)
    ensures
        r == is_set(change_bytes(changes@), name@),
{
    let ghost bytes = change_bytes(changes@);
    let mut i: usize = 0;
    while i < changes.len()
        invariant
            i <= changes@.len() == bytes.len(),
            bytes == change_bytes(changes@),
            forall|j: int| 0 <= j < i ==> (#[trigger] bytes[j]).0 != name@,
        decreases changes@.len() - i,
    {
        assert(bytes[i as int].0 == encode_utf8(changes@[i as int].0@));
        if same_bytes(changes[i].0.as_bytes(), name) {
            return true;
        }
        i = i + 1;
    }
    false
}

/// Lists of bytes.
pub open spec fn list_bytes(list: Seq<Vec<u8>>) -> Seq<Seq<u8>> {
    list.map_values(|e: Vec<u8>| e@)
}

/// Appends a variable to the list of those that a process is handed, unless it cannot be.
fn hand_over(list: &mut Vec<Vec<u8>>, name: &[u8], value: &[u8], Ghost(env): Ghost<Seq<Variable>>) -> (ok:
    bool)
    requires
        list_bytes(old(list)@) == entries(env),
        !some_nul(env),
    ensures
        ok == !has_nul(entry((name@, value@))),
        ok ==> list_bytes(final(list)@) == entries(env.push((name@, value@))),
        ok ==> !some_nul(env.push((name@, value@))),
{
    let e = make_entry(name, value);
    if nul_in(&e) {
        return false;
    }
    let ghost v = (name@, value@);
    let ghost now = env.push(v);
    assert(entries(now) =~= entries(env).push(entry(v)));
    let ghost before = list@;
    list.push(e);
    assert(list_bytes(list@) =~= list_bytes(before).push(e@));
    assert(!some_nul(now)) by {
        if some_nul(now) {
            let k = choose|k: int| 0 <= k < now.len() && has_nul(entry(#[trigger] now[k]));
            if k < env.len() {
                assert(env[k] == now[k]);
            }
        }
    }
    true
}

/// The environment that bash is handed when it is run from memory, or the fault that keeps it
/// from being handed over.
pub fn rpty_env(config: &RptyCommandConfig, inherited: &Vec<(Vec<u8>, Vec<u8>)>) -> (r: Result<
    Vec<Vec<u8>>,
    NulInVariable,
>)
    ensures
        ({
            let env = bash_env(env_bytes(inherited@), config.variable_bytes());
            match r {
                Ok(list) => !some_nul(env) && list_bytes(list@) == entries(env),
                Err(_) => some_nul(env),
            }
        }),
{
    let changes = overrides(config);
    let ghost bytes = config.variable_bytes();
    assert(bytes =~= change_bytes(changes@)) by {
        let text = changes@.map_values(|v: (&'static str, String)| (v.0@, v.1@));
        assert forall|j: int| 0 <= j < bytes.len() implies bytes[j] == (
            encode_utf8(changes@[j].0@),
            encode_utf8(changes@[j].1@),
        ) by {
            assert(text[j] == config.variables()[j]);
        }
    }
    let ghost all = env_bytes(inherited@);
    let ghost env = bash_env(all, bytes);
    let ghost keep = |v: Variable| !is_set(bytes, v.0);
    let mut list: Vec<Vec<u8>> = Vec::new();
    let mut i: usize = 0;
    proof {
        assert(all.take(0) == Seq::<Variable>::empty());
        reveal(Seq::filter);
        assert(list_bytes(list@) =~= entries(all.take(0).filter(keep)));
    }
    while i < inherited.len()
        invariant
            i <= inherited@.len() == all.len(),
            all == env_bytes(inherited@),
            bytes == config.variable_bytes(),
            bytes == change_bytes(changes@),
            keep == (|v: Variable| !is_set(bytes, v.0)),
            env == bash_env(all, bytes),
            list_bytes(list@) == entries(all.take(i as int).filter(keep)),
            !some_nul(all.take(i as int).filter(keep)),
        decreases inherited@.len() - i,
    {
        let ghost before = all.take(i as int).filter(keep);
        let ghost v = all[i as int];
        assert(v == (inherited@[i as int].0@, inherited@[i as int].1@));
        assert(all.take(i + 1).drop_last() == all.take(i as int));
        assert(all.take(i + 1).last() == v);
        assert(all.take(i + 1).filter(keep) == if keep(v) {
            before.push(v)
        } else {
            before
        }) by {
            reveal(Seq::filter);
        }
        if !sets(&changes, inherited[i].0.as_slice()) {
            if !hand_over(
                &mut list,
                inherited[i].0.as_slice(),
                inherited[i].1.as_slice(),
                Ghost(before),
            ) {
                proof {
                    all.lemma_filter_contains(keep, i as int);
                    let k = choose|k: int|
                        0 <= k < all.filter(keep).len() && all.filter(keep)[k] == v;
                    assert(env[k] == v);
                    assert(has_nul(entry(env[k])));
                }
                return Err(NulInVariable);
            }
        }
        i = i + 1;
    }
    assert(all.take(all.len() as int) == all);
    let ghost front = kept(all, bytes);
    let mut k: usize = 0;
    assert(front + bytes.take(0) =~= front);
    while k < changes.len()
        invariant
            k <= changes@.len() == bytes.len(),
            bytes == config.variable_bytes(),
            bytes == change_bytes(changes@),
            env == bash_env(env_bytes(inherited@), bytes),
            env == front + bytes,
            list_bytes(list@) == entries(front + bytes.take(k as int)),
            !some_nul(front + bytes.take(k as int)),
        decreases changes@.len() - k,
    {
        let ghost before = front + bytes.take(k as int);
        let ghost v = bytes[k as int];
        assert(front + bytes.take(k + 1) =~= before.push(v));
        if !hand_over(
            &mut list,
            changes[k].0.as_bytes(),
            changes[k].1.as_str().as_bytes(),
            Ghost(before),
        ) {
            assert(env[front.len() + k as int] == v);
            assert(has_nul(entry(env[front.len() + k as int])));
            return Err(NulInVariable);
        }
        k = k + 1;
    }
    assert(bytes.take(bytes.len() as int) == bytes);
    Ok(list)
}

/// Bash is given its socket, its terminal and its prompt, as the configuration has them.
pub proof fn law_bash_variables(config: RptyCommandConfig)
    ensures
        config.variables().len() == 3,
        config.variables()[0] == ("RPTY_TRANSPORT"@, "unix:"@ + config.sock_path@),
        config.variables()[1] == ("TERM"@, config.term@),
        config.variables()[2] == ("PS1"@, config.ps1@),
        config.variable_bytes().len() == 3,
        config.variable_bytes()[0] == (
            encode_utf8("RPTY_TRANSPORT"@),
            encode_utf8("unix:"@ + config.sock_path@),
        ),
        config.variable_bytes()[1] == (encode_utf8("TERM"@), encode_utf8(config.term@)),
        config.variable_bytes()[2] == (encode_utf8("PS1"@), encode_utf8(config.ps1@)),
{
}

/// The environment of bash, variable by variable: of a variable that is inherited last, nothing is
/// kept if it is set anew, and otherwise it comes after those inherited before it and before those
/// set anew. Those set anew come last, in their order.
pub proof fn law_memory_environment_in_order(
    inherited: Seq<Variable>,
    v: Variable,
    changes: Seq<Variable>,
)
    ensures
        bash_env(Seq::empty(), changes) == changes,
        (exists|i: int| 0 <= i < changes.len() && (#[trigger] changes[i]).0 == v.0) ==> bash_env(
            inherited.push(v),
            changes,
        ) == bash_env(inherited, changes),
        (forall|i: int| 0 <= i < changes.len() ==> (#[trigger] changes[i]).0 != v.0) ==> exists|
            front: Seq<Variable>,
        |
            bash_env(inherited, changes) == #[trigger] (front + changes) && bash_env(
                inherited.push(v),
                changes,
            ) == front.push(v) + changes,
{
    reveal(Seq::filter);
    let nothing = Seq::<Variable>::empty();
    assert(kept(nothing, changes) =~= nothing);
    assert(bash_env(nothing, changes) =~= changes);
    assert(inherited.push(v).drop_last() =~= inherited);
    let front = kept(inherited, changes);
    if forall|i: int| 0 <= i < changes.len() ==> (#[trigger] changes[i]).0 != v.0 {
        assert(!is_set(changes, v.0));
        assert(kept(inherited.push(v), changes) == front.push(v));
        assert(bash_env(inherited, changes) == front + changes);
    } else {
        assert(is_set(changes, v.0));
        assert(kept(inherited.push(v), changes) == front);
    }
}

/// A process is handed a variable as its name, an equals sign and its value, each as it is.
pub proof fn law_entries_hold_names_and_values(env: Seq<Variable>, i: int)
    requires
        0 <= i < env.len(),
    ensures
        entries(env).len() == env.len(),
        entries(env)[i] == env[i].0 + seq![61u8] + env[i].1,
{
}

/// A variable cannot be handed over exactly if its name or its value holds a byte nought.
pub proof fn law_nul_is_refused(env: Seq<Variable>)
    ensures
        some_nul(env) <==> exists|i: int|
            0 <= i < env.len() && ((#[trigger] env[i]).0.contains(0u8) || env[i].1.contains(0u8)),
{
    assert forall|i: int| 0 <= i < env.len() implies (has_nul(entry(#[trigger] env[i])) <==> (
    env[i].0.contains(0u8) || env[i].1.contains(0u8))) by {
        let name = env[i].0;
        let value = env[i].1;
        let whole = entry(env[i]);
        if name.contains(0u8) {
            let k = choose|k: int| 0 <= k < name.len() && name[k] == 0u8;
            assert(whole[k] == 0u8);
        }
        if value.contains(0u8) {
            let k = choose|k: int| 0 <= k < value.len() && value[k] == 0u8;
            assert(whole[name.len() + 1 + k] == 0u8);
        }
        if whole.contains(0u8) {
            let k = choose|k: int| 0 <= k < whole.len() && whole[k] == 0u8;
            if k < name.len() {
                assert(name[k] == 0u8);
            } else {
                assert(k > name.len());
                assert(value[k - name.len() - 1] == 0u8);
            }
        }
    }
}

/// Lists and environments are taken item by item.
pub proof fn law_items_as_they_are(list: Seq<Vec<u8>>, env: Seq<(Vec<u8>, Vec<u8>)>, i: int)
    ensures
        list_bytes(list).len() == list.len(),
        0 <= i < list.len() ==> list_bytes(list)[i] == list[i]@,
        env_bytes(env).len() == env.len(),
        0 <= i < env.len() ==> env_bytes(env)[i] == (env[i].0@, env[i].1@),
{
}

/// What a list of variables sets, where a later one counts more than an earlier one.
pub open spec fn env_map(env: Seq<Variable>) -> Map<Seq<u8>, Seq<u8>>
    decreases env.len(),
{
    if env.len() == 0 {
        Map::empty()
    } else {
        env_map(env.drop_last()).insert(env.last().0, env.last().1)
    }
}

/// No name stands twice.
pub open spec fn names_once(env: Seq<Variable>) -> bool {
    forall|i: int, j: int|
        0 <= i < j < env.len() ==> (#[trigger] env[i]).0 != (#[trigger] env[j]).0
}

proof fn lemma_env_map_names(env: Seq<Variable>)
    ensures
        forall|name: Seq<u8>| env_map(env).contains_key(name) <==> is_set(env, name),
    decreases env.len(),
{
    if env.len() > 0 {
        let front = env.drop_last();
        lemma_env_map_names(front);
        assert forall|name: Seq<u8>| env_map(env).contains_key(name) <==> is_set(env, name) by {
            if is_set(front, name) {
                let i = choose|i: int| 0 <= i < front.len() && (#[trigger] front[i]).0 == name;
                assert(env[i].0 == name);
            }
            if is_set(env, name) {
                let i = choose|i: int| 0 <= i < env.len() && (#[trigger] env[i]).0 == name;
                if i < front.len() {
                    assert(front[i].0 == name);
                }
            }
            assert(env[env.len() - 1] == env.last());
        }
    }
}

proof fn lemma_env_map_joined(a: Seq<Variable>, b: Seq<Variable>)
    ensures
        env_map(a + b) == env_map(a).union_prefer_right(env_map(b)),
    decreases b.len(),
{
    if b.len() == 0 {
        assert(a + b == a);
        assert(env_map(a).union_prefer_right(Map::empty()) =~= env_map(a));
    } else {
        lemma_env_map_joined(a, b.drop_last());
        assert((a + b).drop_last() == a + b.drop_last());
        assert((a + b).last() == b.last());
        assert(env_map(a + b) =~= env_map(a).union_prefer_right(env_map(b)));
    }
}

proof fn lemma_kept_map(env: Seq<Variable>, changes: Seq<Variable>, name: Seq<u8>)
    ensures
        env_map(kept(env, changes)).contains_key(name) <==> !is_set(changes, name) && env_map(
            env,
        ).contains_key(name),
        env_map(kept(env, changes)).contains_key(name) ==> env_map(kept(env, changes))[name]
            == env_map(env)[name],
    decreases env.len(),
{
    reveal(Seq::filter);
    if env.len() > 0 {
        let front = env.drop_last();
        lemma_kept_map(front, changes, name);
        let v = env.last();
        if !is_set(changes, v.0) {
            assert(kept(env, changes) == kept(front, changes).push(v));
            assert(kept(env, changes).drop_last() == kept(front, changes));
        } else {
            assert(kept(env, changes) == kept(front, changes));
        }
    } else {
        assert(kept(env, changes) == env);
    }
}

/// Bash run from memory finds every variable as it would if it were started with the inherited
/// environment and the changes on top.
pub proof fn law_memory_environment_agrees(inherited: Seq<Variable>, changes: Seq<Variable>)
    ensures
        env_map(bash_env(inherited, changes)) == env_map(inherited + changes),
{
    lemma_env_map_joined(kept(inherited, changes), changes);
    lemma_env_map_joined(inherited, changes);
    lemma_env_map_names(changes);
    let left = env_map(bash_env(inherited, changes));
    let right = env_map(inherited + changes);
    assert forall|name: Seq<u8>| left.contains_key(name) <==> right.contains_key(name) by {
        lemma_kept_map(inherited, changes, name);
    }
    assert forall|name: Seq<u8>| left.contains_key(name) implies left[name] == right[name] by {
        lemma_kept_map(inherited, changes, name);
    }
    assert(left =~= right);
}

proof fn lemma_kept_once(env: Seq<Variable>, changes: Seq<Variable>)
    requires
        names_once(env),
    ensures
        names_once(kept(env, changes)),
        forall|i: int|
            0 <= i < kept(env, changes).len() ==> !is_set(
                changes,
                (#[trigger] kept(env, changes)[i]).0,
            ) && env.contains(kept(env, changes)[i]),
    decreases env.len(),
{
    reveal(Seq::filter);
    if env.len() > 0 {
        let front = env.drop_last();
        let v = env.last();
        let before = kept(front, changes);
        let now = kept(env, changes);
        assert(names_once(front)) by {
            assert forall|i: int, j: int| 0 <= i < j < front.len() implies (#[trigger] front[i]).0
                != (#[trigger] front[j]).0 by {
                assert(env[i].0 != env[j].0);
            }
        }
        lemma_kept_once(front, changes);
        assert forall|i: int| 0 <= i < before.len() implies env.contains(#[trigger] before[i])
            && before[i].0 != v.0 by {
            let k = choose|k: int| 0 <= k < front.len() && front[k] == before[i];
            assert(env[k] == before[i]);
            assert(env[k].0 != env[env.len() - 1].0);
        }
        if !is_set(changes, v.0) {
            assert(now == before.push(v));
            assert(env.contains(v)) by {
                assert(env[env.len() - 1] == v);
            }
        }
        assert forall|i: int| 0 <= i < now.len() implies !is_set(changes, (#[trigger] now[i]).0)
            && env.contains(now[i]) by {
            if i < before.len() {
                assert(now[i] == before[i]);
            }
        }
        assert forall|i: int, j: int| 0 <= i < j < now.len() implies (#[trigger] now[i]).0
            != (#[trigger] now[j]).0 by {
            assert(now[i] == before[i]);
            if j < before.len() {
                assert(now[j] == before[j]);
            }
        }
    }
}

/// Bash run from memory is handed no name twice, if none was inherited twice.
pub proof fn law_memory_environment_names_once(inherited: Seq<Variable>, config: RptyCommandConfig)
    requires
        names_once(inherited),
    ensures
        names_once(bash_env(inherited, config.variable_bytes())),
{
    let changes = config.variable_bytes();
    let front = kept(inherited, changes);
    let env = bash_env(inherited, changes);
    lemma_kept_once(inherited, changes);
    assert(names_once(changes)) by {
        reveal_strlit("RPTY_TRANSPORT");
        reveal_strlit("TERM");
        reveal_strlit("PS1");
        is_ascii_chars_encode_utf8("RPTY_TRANSPORT"@);
        is_ascii_chars_encode_utf8("TERM"@);
        is_ascii_chars_encode_utf8("PS1"@);
        assert(changes[0].0.len() == 14);
        assert(changes[1].0.len() == 4);
        assert(changes[2].0.len() == 3);
    }
    assert forall|i: int, j: int| 0 <= i < j < env.len() implies (#[trigger] env[i]).0 != (
    #[trigger] env[j]).0 by {
        if j < front.len() {
            assert(front[i].0 != front[j].0);
        } else if i >= front.len() {
            assert(changes[i - front.len()].0 != changes[j - front.len()].0);
        } else {
            assert(env[j] == changes[j - front.len()]);
            assert(!is_set(changes, front[i].0));
        }
    }
}

/// The arguments that bash run from memory is handed, its own name first.
pub open spec fn memory_args() -> Seq<Seq<u8>> {
    seq![encode_utf8("bash-rpty"@), encode_utf8("--noprofile"@), encode_utf8("--norc"@)]
}

/// Bash run from memory is handed its name and the arguments that it is started with otherwise.
pub proof fn law_memory_arguments()
    ensures
        memory_args().len() == 3,
        memory_args()[0] == encode_utf8("bash-rpty"@),
        memory_args()[1] == encode_utf8("--noprofile"@),
        memory_args()[2] == encode_utf8("--norc"@),
        memory_args().skip(1) == bash_args().map_values(|a: Seq<char>| encode_utf8(a)),
{
    assert(memory_args().skip(1) =~= bash_args().map_values(|a: Seq<char>| encode_utf8(a)));
}

/// What a file in memory is run with. The file itself stands behind the handle `F`.
pub struct MemfdExecPayload<F> {
    pub memfd: F,
    pub argv: Vec<Vec<u8>>,
    pub env: Vec<Vec<u8>>,
}

impl<F> MemfdExecPayload<F> {
    /// Nothing that is handed over holds a byte that ends a string.
    pub open spec fn wf(&self) -> bool {
        &&& forall|i: int| 0 <= i < self.argv@.len() ==> !has_nul((#[trigger] self.argv@[i])@)
        &&& forall|i: int| 0 <= i < self.env@.len() ==> !has_nul((#[trigger] self.env@[i])@)
    }

    /// What the bash in `memfd` is run with, as `config` says.
    pub fn new(memfd: F, config: &RptyCommandConfig, inherited: &Vec<(Vec<u8>, Vec<u8>)>) -> (r:
        Result<Self, NulInVariable>)
        ensures
            ({
                let env = bash_env(env_bytes(inherited@), config.variable_bytes());
                match r {
                    Ok(p) => {
                        &&& !some_nul(env)
                        &&& p.wf()
                        &&& p.memfd == memfd
                        &&& list_bytes(p.argv@) == memory_args()
                        &&& list_bytes(p.env@) == entries(env)
                    },
                    Err(_) => some_nul(env),
                }
            }),
    {
        let mut argv: Vec<Vec<u8>> = Vec::new();
        argv.push("bash-rpty".as_bytes_vec());
        argv.push("--noprofile".as_bytes_vec());
        argv.push("--norc".as_bytes_vec());
        proof {
            reveal_strlit("bash-rpty");
            reveal_strlit("--noprofile");
            reveal_strlit("--norc");
            is_ascii_chars_encode_utf8("bash-rpty"@);
            is_ascii_chars_encode_utf8("--noprofile"@);
            is_ascii_chars_encode_utf8("--norc"@);
            assert(list_bytes(argv@) =~= memory_args());
            assert(forall|i: int| 0 <= i < argv@.len() ==> !has_nul((#[trigger] argv@[i])@));
        }
        match rpty_env(config, inherited) {
            Ok(env) => {
                let p = MemfdExecPayload { memfd, argv, env };
                assert(p.wf()) by {
                    let vars = bash_env(env_bytes(inherited@), config.variable_bytes());
                    assert(list_bytes(p.env@).len() == entries(vars).len());
                    assert forall|i: int| 0 <= i < p.env@.len() implies !has_nul(
                        (#[trigger] p.env@[i])@,
                    ) by {
                        assert(list_bytes(p.env@)[i] == entries(vars)[i]);
                        assert(!has_nul(entry(vars[i])));
                    }
                }
                Ok(p)
            },
            Err(e) => Err(e),
        }
    }
}

/// A list of addresses, ended by the null address.
pub fn null_terminated(addresses: Vec<usize>) -> (r: Vec<usize>)
    ensures
        r@ == addresses@.push(0),
{
    let mut r = addresses;
    r.push(0);
    r
}

} // verus!
