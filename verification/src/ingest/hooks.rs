//! What a repository's receive hooks are asked, and what their answers mean.
//!
//! The hook before the refs move answers for each ref of a push by itself.

use vstd::prelude::*;
use vstd::string::*;

use crate::deps::hex::{hex, hex_of};
use crate::ingest::ref_updates::{
    is_out, kept_places, lemma_kept_places, refusals, Ingested, PushRejection, RefUpdateOutcome,
    Refusal,
};
use crate::metadata::refs::RefUpdate;
use crate::object::ObjectId;
use crate::ordmap::{stands_at, OrdMap, OrdSet};
use crate::text::{decimal, joined, push_decimal, push_joined, said};

verus! {

/// One ref update that a push asks for.
#[derive(Debug)]
pub struct RefCommand {
    pub refname: String,
    /// What the ref has, in hexadecimal; none when the push creates it.
    pub old_id: Option<String>,
    /// What the ref gets, in hexadecimal; none when the push deletes it.
    pub new_id: Option<String>,
    /// Whether the old value is no ancestor of the new one. Only ever so when
    /// both are there.
    pub force: bool,
}

/// One ref update that a push asks for.
#[verifier::ext_equal]
pub struct CommandView {
    pub refname: Seq<char>,
    pub old_id: Option<Seq<char>>,
    pub new_id: Option<Seq<char>>,
    pub force: bool,
}

impl View for RefCommand {
    type V = CommandView;

    open spec fn view(&self) -> CommandView {
        CommandView {
            refname: self.refname@,
            old_id: match self.old_id {
                Some(id) => Some(id@),
                None => None,
            },
            new_id: match self.new_id {
                Some(id) => Some(id@),
                None => None,
            },
            force: self.force,
        }
    }
}

/// Whether one command may land.
#[derive(Debug)]
pub enum Verdict {
    Allow,
    /// It may not, and this is what whoever pushed is told.
    Refuse(String),
}

/// What a hook decided about one command.
#[derive(Debug)]
pub struct RefJudgement {
    /// Which command, as it spelled its refname.
    pub refname: String,
    pub verdict: Verdict,
}

/// Whoever a request was admitted as, carried to the hooks.
///
/// The context may hold credentials, so nothing here shows it.
pub struct Actor {
    /// Who is asking, as whoever decided calls them.
    pub id: String,
    /// What the decider wants handed back, byte for byte.
    pub context: Vec<u8>,
}

impl Actor {
    /// An actor of whom nothing is handed back.
    pub fn new(id: &str) -> (actor: Actor)
        ensures
            actor.id@ == id@,
            actor.context@ == Seq::<u8>::empty(),
    {
        Actor { id: id.to_owned(), context: Vec::new() }
    }

    /// The actor as a log may show it: the id, and how long the context is.
    pub fn shown(&self) -> (text: String)
        ensures
            text@ == "Actor("@ + self.id@ + ", "@ + decimal(self.context@.len()) + " bytes)"@,
    {
        let mut text: String = "Actor(".to_owned();
        text.append(self.id.as_str());
        text.append(", ");
        push_decimal(&mut text, self.context.len() as u64);
        text.append(" bytes)");
        text
    }
}

/// Hooks that let everything land.
#[derive(Clone, Copy, Debug)]
pub struct NoHooks;

impl NoHooks {
    /// Every command is allowed.
    pub fn pre_receive(&self, commands: &[RefCommand]) -> (judgements: Vec<RefJudgement>)
        ensures
            judgements@.len() == commands@.len(),
            forall|i: int|
                0 <= i < commands@.len() ==> (#[trigger] judgements@[i]).refname@
                    == commands@[i].refname@ && judgements@[i].verdict is Allow,
    {
        let mut judgements: Vec<RefJudgement> = Vec::new();
        let mut i: usize = 0;
        while i < commands.len()
            invariant
                i <= commands@.len(),
                judgements@.len() == i,
                forall|k: int|
                    0 <= k < i ==> (#[trigger] judgements@[k]).refname@ == commands@[k].refname@
                        && judgements@[k].verdict is Allow,
            decreases commands@.len() - i,
        {
            judgements.push(
                RefJudgement {
                    refname: commands[i].refname.as_str().to_owned(),
                    verdict: Verdict::Allow,
                },
            );
            i += 1;
        }
        judgements
    }
}

/// Whether an update replaces a value, and so may be a force.
pub open spec fn replaces(update: RefUpdate, null: ObjectId) -> bool {
    update.old_id != null && update.new_id != null
}

/// Whether an update replaces a value: only then is it asked whether the old
/// one is an ancestor of the new one.
pub fn is_real_update(update: &RefUpdate, null: ObjectId) -> (replacing: bool)
    ensures
        replacing == replaces(*update, null),
{
    update.old_id != null && update.new_id != null
}

/// Whether an update is a force: it replaces a value by one that does not come
/// from it.
pub open spec fn is_force(update: RefUpdate, null: ObjectId, ancestor: bool) -> bool {
    replaces(update, null) && !ancestor
}

/// Whether an update is a force, where `ancestor` says whether its old value is
/// an ancestor of its new one. What is said of an update that replaces no value
/// is passed over.
pub fn force_of(update: &RefUpdate, null: ObjectId, ancestor: bool) -> (force: bool)
    ensures
        force == is_force(*update, null, ancestor),
{
    is_real_update(update, null) && !ancestor
}

/// The command that an update is put to a hook as.
///
/// Deleting counts before creating.
pub open spec fn command_for(update: RefUpdate, ancestor: bool, null: ObjectId) -> CommandView {
    let deletes = update.new_id == null;
    let creates = !deletes && update.old_id == null;
    CommandView {
        refname: update.refname@,
        old_id: if creates {
            None
        } else {
            Some(hex_of(update.old_id.bytes()))
        },
        new_id: if deletes {
            None
        } else {
            Some(hex_of(update.new_id.bytes()))
        },
        force: is_force(update, null, ancestor),
    }
}

/// The commands that the updates at `live` are put to a hook as; `ancestors`
/// says of each whether its old value is an ancestor of its new one.
pub fn commands_for(
    updates: &[RefUpdate],
    live: &[usize],
    ancestors: &[bool],
    null: ObjectId,
) -> (commands: Vec<RefCommand>)
    requires
        ancestors@.len() == live@.len(),
        forall|k: int| 0 <= k < live@.len() ==> (#[trigger] live@[k]) < updates@.len(),
    ensures
        commands@.len() == live@.len(),
        forall|k: int|
            0 <= k < live@.len() ==> (#[trigger] commands@[k])@ == command_for(
                updates@[live@[k] as int],
                ancestors@[k],
                null,
            ),
{
    let mut commands: Vec<RefCommand> = Vec::new();
    let mut k: usize = 0;
    while k < live.len()
        invariant
            k <= live@.len(),
            ancestors@.len() == live@.len(),
            commands@.len() == k,
            forall|j: int| 0 <= j < live@.len() ==> (#[trigger] live@[j]) < updates@.len(),
            forall|j: int|
                0 <= j < k ==> (#[trigger] commands@[j])@ == command_for(
                    updates@[live@[j] as int],
                    ancestors@[j],
                    null,
                ),
        decreases live@.len() - k,
    {
        let update = &updates[live[k]];
        let deletes = update.new_id == null;
        let creates = !deletes && update.old_id == null;
        let old_id: Option<String> = if creates {
            None
        } else {
            Some(hex(update.old_id))
        };
        let new_id: Option<String> = if deletes {
            None
        } else {
            Some(hex(update.new_id))
        };
        let command = RefCommand {
            refname: update.refname.as_str().to_owned(),
            old_id,
            new_id,
            force: force_of(update, null, ancestors[k]),
        };
        assert(command@ =~= command_for(
            updates@[live@[k as int] as int],
            ancestors@[k as int],
            null,
        ));
        commands.push(command);
        k += 1;
    }
    commands
}

/// What a hook's answers say of a refname: its first refusal, else that it is
/// allowed; none where no answer names it.
///
/// Of two answers for one ref one is a mistake, and a refusal costs no more
/// than a push that somebody tries again.
pub open spec fn judged(judgements: Seq<RefJudgement>, refname: Seq<char>) -> Option<
    Option<Seq<char>>,
>
    decreases judgements.len(),
{
    if judgements.len() == 0 {
        None
    } else {
        let earlier = judged(judgements.drop_last(), refname);
        let last = judgements.last();
        if last.refname@ != refname || earlier matches Some(Some(_)) {
            earlier
        } else {
            match last.verdict {
                Verdict::Allow => Some(None),
                Verdict::Refuse(reason) => Some(Some(reason@)),
            }
        }
    }
}

/// Whether an earlier command has the same refname.
pub open spec fn asks_again(commands: Seq<RefCommand>, i: int) -> bool {
    exists|j: int| 0 <= j < i && (#[trigger] commands[j]).refname@ == commands[i].refname@
}

/// Whether a command has a judgement. One judgement answers one command.
pub open spec fn is_judged(
    commands: Seq<RefCommand>,
    judgements: Seq<RefJudgement>,
    i: int,
) -> bool {
    judged(judgements, commands[i].refname@) is Some && !asks_again(commands, i)
}

/// The refnames of the commands that nobody judged, in their order.
pub open spec fn unjudged(commands: Seq<RefCommand>, judgements: Seq<RefJudgement>) -> Seq<
    Seq<char>,
>
    decreases commands.len(),
{
    if commands.len() == 0 {
        Seq::empty()
    } else {
        let earlier = unjudged(commands.drop_last(), judgements);
        if is_judged(commands, judgements, commands.len() - 1) {
            earlier
        } else {
            earlier.push(commands.last().refname@)
        }
    }
}

/// A hook that left commands unjudged.
#[derive(Debug)]
pub struct Unjudged {
    /// How many commands it was shown.
    pub asked: usize,
    /// The refnames of those that it did not judge, in their order.
    pub unjudged: Vec<String>,
    /// The refnames that it judged and was not shown.
    pub stray: Vec<String>,
}

/// The first of a list of refnames, and how many more there are.
pub open spec fn first_of(names: Seq<Seq<char>>) -> Seq<char> {
    if names.len() <= 5 {
        joined(names)
    } else {
        joined(names.take(5)) + " and "@ + decimal((names.len() - 5) as nat) + " more"@
    }
}

/// The first few of `refnames`, and a count of the rest: an error that names
/// thousands is one that nobody reads.
pub fn first_few(refnames: &[String]) -> (text: String)
    ensures
        text@ == first_of(said(refnames@)),
{
    let mut text: String = "".to_owned();
    proof {
        reveal_strlit("");
        assert(""@ =~= Seq::<char>::empty());
    }
    if refnames.len() <= 5 {
        push_joined(&mut text, refnames, refnames.len());
        assert(said(refnames@).take(refnames@.len() as int) =~= said(refnames@));
        assert(text@ =~= joined(said(refnames@)));
    } else {
        push_joined(&mut text, refnames, 5);
        text.append(" and ");
        push_decimal(&mut text, (refnames.len() - 5) as u64);
        text.append(" more");
        assert(text@ =~= first_of(said(refnames@)));
    }
    text
}

impl Unjudged {
    /// What an error says of it.
    pub open spec fn told(self) -> Seq<char> {
        "the pre-receive hook judged "@ + decimal((self.asked - self.unjudged@.len()) as nat)
            + " of "@ + decimal(self.asked as nat) + " commands, and not "@ + first_of(
            said(self.unjudged@),
        ) + (if self.stray@.len() == 0 {
            Seq::empty()
        } else {
            " \u{2014} it judged "@ + first_of(said(self.stray@))
                + ", which this push does not ask for"@
        })
    }

    /// What to say of it. A refname that was spelt wrong is the likeliest cause,
    /// and cannot be seen from the other side, so it is named.
    pub fn message(&self) -> (text: String)
        requires
            self.unjudged@.len() <= self.asked,
        ensures
            text@ == self.told(),
    {
        let mut text: String = "the pre-receive hook judged ".to_owned();
        push_decimal(&mut text, (self.asked - self.unjudged.len()) as u64);
        text.append(" of ");
        push_decimal(&mut text, self.asked as u64);
        text.append(" commands, and not ");
        text.append(first_few(self.unjudged.as_slice()).as_str());
        if self.stray.len() > 0 {
            text.append(" \u{2014} it judged ");
            text.append(first_few(self.stray.as_slice()).as_str());
            text.append(", which this push does not ask for");
        }
        assert(text@ =~= self.told());
        text
    }
}

/// What a map holds of a refname.
spec fn noted(map: Map<Seq<char>, Option<String>>, refname: Seq<char>) -> Option<
    Option<Seq<char>>,
> {
    if !map.contains_key(refname) {
        None
    } else {
        match map[refname] {
            Some(reason) => Some(Some(reason@)),
            None => Some(None),
        }
    }
}

/// Whether one of the first `n` commands is called `refname`.
spec fn commanded(commands: Seq<RefCommand>, n: int, refname: Seq<char>) -> bool {
    exists|j: int| 0 <= j < n && (#[trigger] commands[j]).refname@ == refname
}

/// What a hook's answers say, by refname.
fn note_judgements(judgements: &[RefJudgement]) -> (map: OrdMap<String, Option<String>>)
    ensures
        forall|name: Seq<char>| #[trigger] noted(map@, name) == judged(judgements@, name),
{
    let mut map: OrdMap<String, Option<String>> = OrdMap::new();
    let mut i: usize = 0;
    assert(judgements@.take(0) =~= Seq::<RefJudgement>::empty());
    while i < judgements.len()
        invariant
            i <= judgements@.len(),
            forall|name: Seq<char>| #[trigger]
                noted(map@, name) == judged(judgements@.take(i as int), name),
        decreases judgements@.len() - i,
    {
        let ghost before = map@;
        let judgement = &judgements[i];
        let ghost longer = judgements@.take(i as int + 1);
        assert(longer.drop_last() =~= judgements@.take(i as int));
        let refused = match map.get(&judgement.refname) {
            Some(Some(_)) => true,
            _ => false,
        };
        proof {
            assert(noted(before, judgement.refname@) == judged(
                judgements@.take(i as int),
                judgement.refname@,
            ));
        }
        if !refused {
            let verdict: Option<String> = match &judgement.verdict {
                Verdict::Allow => None,
                Verdict::Refuse(reason) => Some(reason.as_str().to_owned()),
            };
            let _ = map.insert(judgement.refname.as_str().to_owned(), verdict);
        }
        proof {
            assert forall|name: Seq<char>| #[trigger] noted(map@, name) == judged(longer, name) by {
                assert(noted(before, name) == judged(judgements@.take(i as int), name));
            }
        }
        i += 1;
    }
    assert(judgements@.take(i as int) =~= judgements@);
    map
}

/// What a hook's answers mean: what it refused, by refname, or that it left
/// commands unjudged.
///
/// A judgement of a refname that nobody pushed is dropped. A command that
/// nobody judged is an error: a hook that answered for part of a push has not
/// decided the rest.
pub fn judge(commands: &[RefCommand], judgements: &[RefJudgement]) -> (r: Result<
    OrdMap<String, PushRejection>,
    Unjudged,
>)
    ensures
        match r {
            Ok(refused) => {
                &&& unjudged(commands@, judgements@).len() == 0
                &&& forall|name: Seq<char>| #[trigger]
                    refused@.contains_key(name) <==> {
                        &&& judged(judgements@, name) matches Some(Some(_))
                        &&& exists|i: int|
                            0 <= i < commands@.len() && (#[trigger] commands@[i]).refname@ == name
                    }
                &&& forall|name: Seq<char>| #[trigger]
                    refused@.contains_key(name) ==> refused@[name]@ == Refusal::Policy(
                        judged(judgements@, name)->0->0,
                    )
            },
            Err(left) => {
                &&& unjudged(commands@, judgements@).len() > 0
                &&& left.asked == commands@.len()
                &&& said(left.unjudged@) == unjudged(commands@, judgements@)
                &&& left.unjudged@.len() <= left.asked
                &&& forall|name: Seq<char>| #[trigger]
                    said(left.stray@).contains(name) <==> {
                        &&& judged(judgements@, name) is Some
                        &&& forall|i: int|
                            0 <= i < commands@.len() ==> (#[trigger] commands@[i]).refname@ != name
                    }
            },
        },
{
    let mut map = note_judgements(judgements);
    let ghost all = map@;
    let mut refused: OrdMap<String, PushRejection> = OrdMap::new();
    let mut left: Vec<String> = Vec::new();
    let mut i: usize = 0;
    assert(said(left@) =~= unjudged(commands@.take(0), judgements@));
    while i < commands.len()
        invariant
            i <= commands@.len(),
            forall|name: Seq<char>| #[trigger] noted(all, name) == judged(judgements@, name),
            forall|name: Seq<char>| #[trigger]
                map@.contains_key(name) <==> all.contains_key(name) && !commanded(
                    commands@,
                    i as int,
                    name,
                ),
            forall|name: Seq<char>| #[trigger] map@.contains_key(name) ==> map@[name] == all[name],
            said(left@) == unjudged(commands@.take(i as int), judgements@),
            left@.len() <= i,
            forall|name: Seq<char>| #[trigger]
                refused@.contains_key(name) <==> (judged(judgements@, name) matches Some(Some(_)))
                    && commanded(commands@, i as int, name),
            forall|name: Seq<char>| #[trigger]
                refused@.contains_key(name) ==> refused@[name]@ == Refusal::Policy(
                    judged(judgements@, name)->0->0,
                ),
        decreases commands@.len() - i,
    {
        let ghost map0 = map@;
        let ghost refused0 = refused@;
        let ghost left0 = left@;
        let name = &commands[i].refname;
        let ghost longer = commands@.take(i as int + 1);
        proof {
            assert(longer.drop_last() =~= commands@.take(i as int));
            assert(asks_again(longer, i as int) <==> commanded(commands@, i as int, name@)) by {
                if asks_again(longer, i as int) {
                    let j = choose|j: int|
                        0 <= j < i && (#[trigger] longer[j]).refname@ == longer[i as int].refname@;
                    assert(commands@[j].refname@ == name@);
                }
                if commanded(commands@, i as int, name@) {
                    let j = choose|j: int|
                        0 <= j < i && (#[trigger] commands@[j]).refname@ == name@;
                    assert(longer[j].refname@ == longer[i as int].refname@);
                }
            }
            assert(noted(all, name@) == judged(judgements@, name@));
        }
        match map.remove(name) {
            Some(Some(reason)) => {
                let _ = refused.insert(name.as_str().to_owned(), PushRejection::Policy(reason));
            },
            Some(None) => {},
            None => {
                left.push(name.as_str().to_owned());
                assert(said(left@) =~= said(left0).push(name@));
            },
        }
        proof {
            assert forall|other: Seq<char>| commanded(
                commands@,
                i as int + 1,
                other,
            ) <==> #[trigger] commanded(commands@, i as int, other) || other == name@ by {
                if commanded(commands@, i as int, other) {
                    let j = choose|j: int|
                        0 <= j < i && (#[trigger] commands@[j]).refname@ == other;
                    assert(commands@[j].refname@ == other);
                }
                if other == name@ {
                    assert(commands@[i as int].refname@ == other);
                }
            }
            assert forall|other: Seq<char>| #[trigger]
                map@.contains_key(other) <==> all.contains_key(other) && !commanded(
                    commands@,
                    i as int + 1,
                    other,
                ) by {
                assert(map0.contains_key(other) <==> all.contains_key(other) && !commanded(
                    commands@,
                    i as int,
                    other,
                ));
            }
            assert forall|other: Seq<char>| #[trigger]
                refused@.contains_key(other) <==> (judged(judgements@, other) matches Some(Some(
                    _,
                ))) && commanded(commands@, i as int + 1, other) by {
                assert(refused0.contains_key(other) <==> (judged(judgements@, other) matches Some(
                    Some(_),
                )) && commanded(commands@, i as int, other));
            }
        }
        i += 1;
    }
    assert(commands@.take(i as int) =~= commands@);
    if left.len() == 0 {
        proof {
            assert(said(left@).len() == 0);
            assert forall|name: Seq<char>| #[trigger] commanded(
                commands@,
                commands@.len() as int,
                name,
            ) <==> exists|i: int|
                0 <= i < commands@.len() && (#[trigger] commands@[i]).refname@ == name by {}
        }
        return Ok(refused);
    }
    let mut stray: Vec<String> = Vec::new();
    let pairs = map.as_entries();
    let mut k: usize = 0;
    while k < pairs.len()
        invariant
            k <= pairs@.len(),
            stray@.len() == k,
            forall|j: int| 0 <= j < k ==> (#[trigger] stray@[j])@ == pairs@[j].0@,
        decreases pairs@.len() - k,
    {
        stray.push(pairs[k].0.as_str().to_owned());
        k += 1;
    }
    proof {
        assert forall|name: Seq<char>| #[trigger] said(stray@).contains(name) <==> {
            &&& judged(judgements@, name) is Some
            &&& forall|i: int|
                0 <= i < commands@.len() ==> (#[trigger] commands@[i]).refname@ != name
        } by {
            assert(noted(all, name) == judged(judgements@, name));
            assert(map@.contains_key(name) <==> all.contains_key(name) && !commanded(
                commands@,
                commands@.len() as int,
                name,
            ));
            if said(stray@).contains(name) {
                let j = choose|j: int| 0 <= j < said(stray@).len() && said(stray@)[j] == name;
                assert(stray@[j]@ == name);
                assert(pairs@[j].0@ == name);
                assert(map@.contains_key(name));
            }
            if map@.contains_key(name) {
                let j = choose|j: int| stands_at(pairs@, name, j);
                assert(pairs@[j].0@ == name);
                assert(stray@[j]@ == name);
                assert(said(stray@)[j] == name);
            }
        }
        assert(said(left@).len() == left@.len());
    }
    Err(Unjudged { asked: commands.len(), unjudged: left, stray })
}

/// Whether one of the outcomes says that `refname` landed.
pub open spec fn has_landed(outcomes: Seq<RefUpdateOutcome>, refname: Seq<char>) -> bool {
    exists|i: int|
        0 <= i < outcomes.len() && (#[trigger] outcomes[i]).refname@ == refname
            && outcomes[i].result is Ok
}

/// The commands whose refs landed, in their order: what the hook after the
/// refs moved is told, if there are any.
pub fn landed(commands: &[RefCommand], outcomes: &[RefUpdateOutcome]) -> (places: Vec<usize>)
    ensures
        places@ == landed_places(commands@, outcomes@),
{
    let mut names: OrdSet<String> = OrdSet::new();
    let mut i: usize = 0;
    assert(forall|name: Seq<char>| !has_landed(outcomes@.take(0), name));
    while i < outcomes.len()
        invariant
            i <= outcomes@.len(),
            forall|name: Seq<char>| #[trigger]
                names@.contains(name) <==> has_landed(outcomes@.take(i as int), name),
        decreases outcomes@.len() - i,
    {
        let ghost before = names@;
        if outcomes[i].result.is_ok() {
            let _ = names.insert(outcomes[i].refname.as_str().to_owned());
        }
        proof {
            let shorter = outcomes@.take(i as int);
            let longer = outcomes@.take(i as int + 1);
            assert forall|name: Seq<char>| #[trigger] names@.contains(name) <==> has_landed(
                longer,
                name,
            ) by {
                assert(before.contains(name) <==> has_landed(shorter, name));
                if has_landed(shorter, name) {
                    let j = choose|j: int|
                        0 <= j < shorter.len() && (#[trigger] shorter[j]).refname@ == name
                            && shorter[j].result is Ok;
                    assert(longer[j] == shorter[j]);
                }
                if has_landed(longer, name) {
                    let j = choose|j: int|
                        0 <= j < longer.len() && (#[trigger] longer[j]).refname@ == name
                            && longer[j].result is Ok;
                    if j < i {
                        assert(shorter[j] == longer[j]);
                    }
                }
                if names@.contains(name) && !before.contains(name) {
                    assert(longer[i as int].refname@ == name);
                }
            }
        }
        i += 1;
    }
    assert(outcomes@.take(i as int) =~= outcomes@);
    let mut places: Vec<usize> = Vec::new();
    let mut k: usize = 0;
    assert(commands@.take(0) =~= Seq::<RefCommand>::empty());
    while k < commands.len()
        invariant
            k <= commands@.len(),
            forall|name: Seq<char>| #[trigger]
                names@.contains(name) <==> has_landed(outcomes@, name),
            places@ == landed_places(commands@.take(k as int), outcomes@),
        decreases commands@.len() - k,
    {
        assert(commands@.take(k as int + 1).drop_last() =~= commands@.take(k as int));
        if names.contains(&commands[k].refname) {
            places.push(k);
        }
        k += 1;
    }
    assert(commands@.take(k as int) =~= commands@);
    places
}

/// Where the commands stand whose refs landed.
pub open spec fn landed_places(
    commands: Seq<RefCommand>,
    outcomes: Seq<RefUpdateOutcome>,
) -> Seq<usize>
    decreases commands.len(),
{
    if commands.len() == 0 {
        Seq::empty()
    } else {
        let earlier = landed_places(commands.drop_last(), outcomes);
        if has_landed(outcomes, commands.last().refname@) {
            earlier.push((commands.len() - 1) as usize)
        } else {
            earlier
        }
    }
}

/// With no hooks installed nothing is refused, and nothing is left unjudged.
pub proof fn no_hooks_refuse_nothing(judgements: Seq<RefJudgement>, name: Seq<char>)
    requires
        forall|i: int| 0 <= i < judgements.len() ==> (#[trigger] judgements[i]).verdict is Allow,
    ensures
        !(judged(judgements, name) matches Some(Some(_))),
        (exists|i: int| 0 <= i < judgements.len() && (#[trigger] judgements[i]).refname@ == name)
            ==> judged(judgements, name) == Some(None::<Seq<char>>),
    decreases judgements.len(),
{
    if judgements.len() > 0 {
        let shorter = judgements.drop_last();
        assert forall|i: int| 0 <= i < shorter.len() implies (
        #[trigger] shorter[i]).verdict is Allow by {
            assert(judgements[i].verdict is Allow);
        }
        assert(judgements[judgements.len() - 1].verdict is Allow);
        no_hooks_refuse_nothing(shorter, name);
        if exists|i: int|
            0 <= i < judgements.len() && (#[trigger] judgements[i]).refname@ == name {
            let i = choose|i: int|
                0 <= i < judgements.len() && (#[trigger] judgements[i]).refname@ == name;
            if i < shorter.len() {
                assert(shorter[i].refname@ == name);
            }
        }
    }
}

proof fn lemma_all_judged(commands: Seq<RefCommand>, judgements: Seq<RefJudgement>, k: int)
    requires
        unjudged(commands, judgements).len() == 0,
        0 <= k < commands.len(),
    ensures
        is_judged(commands, judgements, k),
    decreases commands.len(),
{
    if k < commands.len() - 1 {
        let shorter = commands.drop_last();
        lemma_all_judged(shorter, judgements, k);
        if asks_again(commands, k) {
            let j = choose|j: int|
                0 <= j < k && (#[trigger] commands[j]).refname@ == commands[k].refname@;
            assert(shorter[j].refname@ == shorter[k].refname@);
        }
    }
}

/// What reaches the ref store was shown to the hook, and the hook allowed it.
///
/// `live` is where the updates stand that the hook is asked about, `refused`
/// what it refused, and `rejected` what was rejected before together with that.
pub proof fn what_reaches_the_refs_was_allowed(
    updates: Seq<RefUpdate>,
    ingested: Ingested,
    out: Set<Seq<char>>,
    live: Seq<usize>,
    commands: Seq<RefCommand>,
    judgements: Seq<RefJudgement>,
    refused: Map<Seq<char>, PushRejection>,
    rejected: Map<Seq<char>, PushRejection>,
    at: usize,
)
    requires
        updates.len() <= usize::MAX,
        forall|name: Seq<char>| #[trigger]
            out.contains(name) <==> is_out(ingested.rejected@, ingested.screened@, name),
        live == kept_places(updates, |update: RefUpdate| !out.contains(update.refname@)),
        commands.len() == live.len(),
        forall|k: int|
            0 <= k < live.len() ==> (#[trigger] commands[k]).refname@
                == updates[live[k] as int].refname@,
        unjudged(commands, judgements).len() == 0,
        forall|name: Seq<char>| #[trigger]
            refused.contains_key(name) <==> {
                &&& judged(judgements, name) matches Some(Some(_))
                &&& exists|i: int|
                    0 <= i < commands.len() && (#[trigger] commands[i]).refname@ == name
            },
        refusals(rejected) == refusals(ingested.rejected@).union_prefer_right(refusals(refused)),
        kept_places(
            updates,
            |update: RefUpdate| !is_out(rejected, ingested.screened@, update.refname@),
        ).contains(at),
    ensures
        exists|k: int|
            0 <= k < live.len() && (#[trigger] live[k]) == at && is_judged(commands, judgements, k),
        judged(judgements, updates[at as int].refname@) == Some(None::<Seq<char>>),
{
    let shown = |update: RefUpdate| !out.contains(update.refname@);
    let applying = |update: RefUpdate| !is_out(rejected, ingested.screened@, update.refname@);
    lemma_kept_places(updates, shown);
    lemma_kept_places(updates, applying);
    let name = updates[at as int].refname@;
    assert(applying(updates[at as int]));
    assert(!refusals(rejected).contains_key(name));
    assert(!refusals(ingested.rejected@).contains_key(name));
    assert(!refusals(refused).contains_key(name));
    assert(!out.contains(name));
    assert(shown(updates[at as int]));
    assert(live.contains(at));
    let k = choose|k: int| 0 <= k < live.len() && live[k] == at;
    lemma_all_judged(commands, judgements, k);
    assert(commands[k].refname@ == name);
    assert(!refused.contains_key(name));
}

} // verus!
