//! Who runs the program, and whose history it writes.

use crate::failure::{Failure, FailureKind};
use crate::text::{lines, parse_bounded, same, split_once, starts_with, to_decimal, trim};
#[allow(unused_imports)]
use crate::{
    failure::{fails, FailureView},
    text::{
        begins_with, cut_at, decimal, finishes_with, is_space, joined, law_joining_undoes_splitting,
        law_trimmed_text_is_the_middle, lemma_ends_cleanly, lemma_pieces_last, lemma_pieces_step,
        line_seq, occurs, occurs_at, opt_view, parsed, trimmed, views,
    },
};
use vstd::prelude::*;

verus! {

/// Where edits made under sudo are recorded.
#[derive(Clone, Copy, Debug, PartialEq, Eq, Structural)]
pub enum SudoHistoryPolicy {
    RootAndUser,
    RootOnly,
}

/// An account of the system.
#[derive(Debug, PartialEq, Eq)]
pub struct Account {
    pub name: String,
    pub uid: u32,
    pub gid: u32,
    pub home: String,
}

/// The model of an account.
pub struct AccountView {
    pub name: Seq<char>,
    pub uid: u32,
    pub gid: u32,
    pub home: Seq<char>,
}

impl View for Account {
    type V = AccountView;

    open spec fn view(&self) -> AccountView {
        AccountView { name: self.name@, uid: self.uid, gid: self.gid, home: self.home@ }
    }
}

impl Clone for Account {
    fn clone(&self) -> (r: Self)
        ensures
            r@ == self@,
    {
        Account { name: self.name.clone(), uid: self.uid, gid: self.gid, home: self.home.clone() }
    }
}

/// What the process knows of how it was started.
#[derive(Debug, PartialEq, Eq)]
pub struct ExecutionContext {
    pub effective_uid: u32,
    pub sudo_user: Option<String>,
    pub sudo_uid: Option<String>,
}

/// Who runs the program.
#[derive(Debug, PartialEq, Eq)]
pub struct RuntimeIdentity {
    pub effective: Account,
    pub history_owner: Account,
    pub invoker: Option<Account>,
    pub actor: String,
    pub sudo: bool,
}

/// The model of a runtime identity.
pub struct IdentityView {
    pub effective: AccountView,
    pub history_owner: AccountView,
    pub invoker: Option<AccountView>,
    pub actor: Seq<char>,
    pub sudo: bool,
}

/// The model of an optional account.
pub open spec fn opt_account(a: Option<Account>) -> Option<AccountView> {
    match a {
        Some(x) => Some(x@),
        None => None,
    }
}

impl View for RuntimeIdentity {
    type V = IdentityView;

    open spec fn view(&self) -> IdentityView {
        IdentityView {
            effective: self.effective@,
            history_owner: self.history_owner@,
            invoker: opt_account(self.invoker),
            actor: self.actor@,
            sudo: self.sudo,
        }
    }
}

/// The account database.
pub trait AccountLookup {
    fn by_uid(&self, uid: u32) -> Result<Account, Failure>;

    fn by_name(&self, name: &str) -> Result<Account, Failure>;
}

/// The user that sudo says it was called by: only root can have one, and it is never root.
pub open spec fn claimed_invoker(context: ExecutionContext) -> Option<u32> {
    match context.sudo_uid {
        Some(text) => match parsed(text@, u32::MAX as nat) {
            Some(uid) => if context.effective_uid == 0 && uid != 0 {
                Some(uid as u32)
            } else {
                None
            },
            None => None,
        },
        None => None,
    }
}

/// The identity of a process with an effective account: the claimed invoker counts only where
/// its account bears the name that sudo gave.
pub open spec fn identity_of(
    context: ExecutionContext,
    effective: AccountView,
    claimed: Option<AccountView>,
) -> IdentityView {
    match claimed {
        Some(account) => if opt_view(context.sudo_user) == Some(account.name) {
            IdentityView {
                effective,
                history_owner: effective,
                invoker: Some(account),
                actor: account.name,
                sudo: true,
            }
        } else {
            direct_identity(effective)
        },
        None => direct_identity(effective),
    }
}

/// The identity of a process that sudo did not start.
pub open spec fn direct_identity(effective: AccountView) -> IdentityView {
    IdentityView {
        effective,
        history_owner: effective,
        invoker: None,
        actor: effective.name,
        sudo: false,
    }
}

/// The user that sudo says it was called by.
pub fn sudo_claim(context: &ExecutionContext) -> (r: Option<u32>)
    ensures
        r == claimed_invoker(*context),
{
    match &context.sudo_uid {
        Some(text) => match parse_bounded(text.as_str(), u32::MAX as u64) {
            Some(uid) => if context.effective_uid == 0 && uid != 0 {
                Some(uid as u32)
            } else {
                None
            },
            None => None,
        },
        None => None,
    }
}

/// The identity of a process, from its effective account and that of the claimed invoker.
pub fn identify(context: &ExecutionContext, effective: Account, claimed: Option<Account>) -> (r:
    RuntimeIdentity)
    ensures
        r@ == identity_of(*context, effective@, opt_account(claimed)),
{
    match claimed {
        Some(account) => {
            let trusted: bool = match &context.sudo_user {
                Some(user) => *user == account.name,
                None => false,
            };
            if trusted {
                return RuntimeIdentity {
                    history_owner: effective.clone(),
                    effective,
                    actor: account.name.clone(),
                    invoker: Some(account),
                    sudo: true,
                };
            }
        },
        None => {},
    }
    RuntimeIdentity {
        history_owner: effective.clone(),
        actor: effective.name.clone(),
        effective,
        invoker: None,
        sudo: false,
    }
}

/// Whether a resolution came to an identity.
pub open spec fn resolved_as(r: Result<RuntimeIdentity, Failure>, id: IdentityView) -> bool {
    r matches Ok(x) && x@ == id
}

/// The account of a lookup that found one.
pub open spec fn ok_of(r: Result<Account, Failure>) -> Option<Account> {
    match r {
        Ok(a) => Some(a),
        Err(_) => None,
    }
}

/// Looks up the effective account, and that of the claimed invoker where there is one; a claimed
/// invoker without an account is ignored.
pub fn resolve_identity<A: AccountLookup>(
    context: &ExecutionContext,
    _policy: SudoHistoryPolicy,
    accounts: &A,
) -> (r: Result<RuntimeIdentity, Failure>)
    ensures
        exists|found: Result<Account, Failure>| #[trigger]
            call_ensures(A::by_uid, (accounts, context.effective_uid), found) && match found {
                Err(failure) => r == Err::<RuntimeIdentity, Failure>(failure),
                Ok(effective) => match claimed_invoker(*context) {
                    None => resolved_as(r, identity_of(*context, effective@, None)),
                    Some(uid) => exists|claim: Result<Account, Failure>| #[trigger]
                        call_ensures(A::by_uid, (accounts, uid), claim) && resolved_as(
                            r,
                            identity_of(*context, effective@, opt_account(ok_of(claim))),
                        ),
                },
            },
{
    match accounts.by_uid(context.effective_uid) {
        Err(failure) => Err(failure),
        Ok(effective) => {
            let claimed: Option<Account> = match sudo_claim(context) {
                Some(uid) => match accounts.by_uid(uid) {
                    Ok(account) => Some(account),
                    Err(_) => None,
                },
                None => None,
            };
            Ok(identify(context, effective, claimed))
        },
    }
}

/// What a line says: its text before any `#`, without the space around it.
pub open spec fn line_content(raw: Seq<char>) -> Seq<char> {
    match cut_at(raw, "#"@) {
        Some((before, _)) => trimmed(before),
        None => trimmed(raw),
    }
}

/// What a line of the system configuration is to the policy.
pub enum PolicyLine {
    /// Nothing.
    Other,
    /// The name of the setting without a value.
    Malformed,
    /// The setting with this value.
    Setting(Seq<char>),
}

/// How a line is read.
pub open spec fn policy_line(raw: Seq<char>) -> PolicyLine {
    let line = line_content(raw);
    match cut_at(line, "="@) {
        None => if begins_with(line, "sudo_history"@) {
            PolicyLine::Malformed
        } else {
            PolicyLine::Other
        },
        Some((key, value)) => if trimmed(key) == "sudo_history"@ {
            PolicyLine::Setting(trimmed(value))
        } else {
            PolicyLine::Other
        },
    }
}

/// The policy that a value names.
pub open spec fn policy_value(value: Seq<char>) -> Option<SudoHistoryPolicy> {
    if value == "\"root_and_user\""@ || value == "\"user\""@ {
        Some(SudoHistoryPolicy::RootAndUser)
    } else if value == "\"root_only\""@ || value == "\"root\""@ {
        Some(SudoHistoryPolicy::RootOnly)
    } else {
        None
    }
}

/// The failure of a policy at a line.
pub open spec fn policy_failure(line: nat, detail: Seq<char>) -> FailureView {
    fails(
        FailureKind::InvalidData,
        "invalid sudo_history policy at line "@ + decimal(line) + ": "@ + detail,
    )
}

/// The policy of the lines from `index` on, when `found` was set before.
pub open spec fn policy_from(
    lines: Seq<Seq<char>>,
    index: int,
    found: Option<SudoHistoryPolicy>,
) -> Result<SudoHistoryPolicy, FailureView>
    decreases lines.len() - index,
{
    if index < 0 || index >= lines.len() {
        Ok(
            match found {
                Some(p) => p,
                None => SudoHistoryPolicy::RootAndUser,
            },
        )
    } else {
        match policy_line(lines[index]) {
            PolicyLine::Other => policy_from(lines, index + 1, found),
            PolicyLine::Malformed => Err(
                policy_failure((index + 1) as nat, "expected key = value"@),
            ),
            PolicyLine::Setting(value) => if found is Some {
                Err(policy_failure((index + 1) as nat, "duplicate sudo_history setting"@))
            } else {
                match policy_value(value) {
                    Some(p) => policy_from(lines, index + 1, Some(p)),
                    None => Err(
                        policy_failure(
                            (index + 1) as nat,
                            "expected \"root_and_user\" or \"root_only\""@,
                        ),
                    ),
                }
            },
        }
    }
}

fn invalid_policy(line: usize, detail: &str) -> (r: Failure)
    ensures
        r@ == policy_failure(line as nat, detail@),
{
    let mut message: String = "invalid sudo_history policy at line ".to_owned();
    message.append(to_decimal(line as u64).as_str());
    message.append(": ");
    message.append(detail);
    Failure { kind: FailureKind::InvalidData, message }
}

fn read_line_content(raw: &str) -> (r: String)
    ensures
        r@ == line_content(raw@),
{
    match split_once(raw, "#") {
        Some(p) => trim(p.0.as_str()),
        None => trim(raw),
    }
}

fn read_policy_value(value: &str) -> (r: Option<SudoHistoryPolicy>)
    ensures
        r == policy_value(value@),
{
    if same(value, "\"root_and_user\"") || same(value, "\"user\"") {
        Some(SudoHistoryPolicy::RootAndUser)
    } else if same(value, "\"root_only\"") || same(value, "\"root\"") {
        Some(SudoHistoryPolicy::RootOnly)
    } else {
        None
    }
}

/// The policy that the system configuration sets; root and user where it sets none.
pub fn parse_sudo_history_config(contents: &str) -> (r: Result<SudoHistoryPolicy, Failure>)
    ensures
        match r {
            Ok(p) => policy_from(line_seq(contents@), 0, None) == Ok::<_, FailureView>(p),
            Err(f) => policy_from(line_seq(contents@), 0, None) == Err::<SudoHistoryPolicy, _>(f@),
        },
{
    let all: Vec<String> = lines(contents);
    let mut found: Option<SudoHistoryPolicy> = None;
    let mut i: usize = 0;
    while i < all.len()
        invariant
            i <= all.len(),
            views(all@) == line_seq(contents@),
            policy_from(line_seq(contents@), 0, None) == policy_from(
                line_seq(contents@),
                i as int,
                found,
            ),
        decreases all.len() - i,
    {
        assert(line_seq(contents@)[i as int] == all@[i as int]@);
        let line: String = read_line_content(all[i].as_str());
        match split_once(line.as_str(), "=") {
            None => {
                if starts_with(line.as_str(), "sudo_history") {
                    return Err(invalid_policy(i + 1, "expected key = value"));
                }
            },
            Some((key, value)) => {
                let key: String = trim(key.as_str());
                if same(key.as_str(), "sudo_history") {
                    if found.is_some() {
                        return Err(invalid_policy(i + 1, "duplicate sudo_history setting"));
                    }
                    let value: String = trim(value.as_str());
                    match read_policy_value(value.as_str()) {
                        Some(p) => {
                            found = Some(p);
                        },
                        None => {
                            return Err(
                                invalid_policy(
                                    i + 1,
                                    "expected \"root_and_user\" or \"root_only\"",
                                ),
                            );
                        },
                    }
                }
            },
        }
        i += 1;
    }
    match found {
        Some(p) => Ok(p),
        None => Ok(SudoHistoryPolicy::RootAndUser),
    }
}

/// What reading the system configuration came to.
pub enum ConfigRead {
    Contents(String),
    Missing,
    Failed(Failure),
}

/// The policy of a configuration file as it was read: a missing file sets none, any other failure
/// is reported with the file's path.
pub fn policy_from_read(path: &str, read: &ConfigRead) -> (r: Result<SudoHistoryPolicy, Failure>)
    ensures
        match (read, r) {
            (ConfigRead::Contents(text), Ok(p)) => policy_from(line_seq(text@), 0, None) == Ok::<
                _,
                FailureView,
            >(p),
            (ConfigRead::Contents(text), Err(f)) => policy_from(line_seq(text@), 0, None) == Err::<
                SudoHistoryPolicy,
                _,
            >(f@),
            (ConfigRead::Missing, Ok(p)) => p == SudoHistoryPolicy::RootAndUser,
            (ConfigRead::Missing, Err(_)) => false,
            (ConfigRead::Failed(_), Ok(_)) => false,
            (ConfigRead::Failed(cause), Err(f)) => f@ == fails(
                cause.kind,
                "cannot read "@ + path@ + ": "@ + cause.message@,
            ),
        },
{
    match read {
        ConfigRead::Contents(text) => parse_sudo_history_config(text.as_str()),
        ConfigRead::Missing => Ok(SudoHistoryPolicy::RootAndUser),
        ConfigRead::Failed(cause) => {
            let mut message: String = "cannot read ".to_owned();
            message.append(path);
            message.append(": ");
            message.append(cause.message.as_str());
            Err(Failure { kind: cause.kind, message })
        },
    }
}

/// Where the system configuration stands; testing may move it.
pub fn system_config_path(testing: bool, moved: Option<&str>) -> (r: String)
    ensures
        r@ == match moved {
            Some(path) if testing => path@,
            _ => "/etc/bedit/config.toml"@,
        },
{
    match moved {
        Some(path) => if testing {
            return path.to_owned();
        },
        None => {},
    }
    "/etc/bedit/config.toml".to_owned()
}

/// Without the effective user being root nobody is an invoker, whatever the environment says.
pub proof fn law_only_root_has_an_invoker(context: ExecutionContext, effective: AccountView)
    requires
        context.effective_uid != 0,
    ensures
        claimed_invoker(context) is None,
        !identity_of(context, effective, None).sudo,
        identity_of(context, effective, None).actor == effective.name,
{
}

/// An identity has an invoker exactly when it is a sudo identity; the invoker is then the actor,
/// and history belongs to the effective account in any case.
pub proof fn law_invoker_is_actor(
    context: ExecutionContext,
    effective: AccountView,
    claimed: Option<AccountView>,
)
    ensures
        ({
            let id = identity_of(context, effective, claimed);
            &&& id.sudo == (id.invoker is Some)
            &&& id.history_owner == effective
            &&& id.invoker matches Some(a) ==> a.name == id.actor && Some(a.name) == opt_view(
                context.sudo_user,
            )
        }),
{
}

/// The invoking user is the one that `sudo` names, where the program runs for the superuser and the
/// number names someone else.
pub proof fn law_invoker_is_whom_sudo_names(context: ExecutionContext)
    ensures
        claimed_invoker(context) is Some <==> context.effective_uid == 0 && (
        context.sudo_uid matches Some(text) && (parsed(text@, u32::MAX as nat) matches Some(n) && n
            != 0)),
        claimed_invoker(context) matches Some(uid) ==> (context.sudo_uid matches Some(text)
            && parsed(text@, u32::MAX as nat) == Some(uid as nat)),
{
}

/// An invoking user counts exactly where its account has the name that `sudo` gives; the history is
/// then still that of the account the program runs for, and the actor is the invoking user. Else the
/// account the program runs for is everything.
pub proof fn law_invoker_counts_where_the_names_agree(
    context: ExecutionContext,
    effective: AccountView,
    claimed: Option<AccountView>,
)
    ensures
        ({
            let id = identity_of(context, effective, claimed);
            let counts = claimed matches Some(a) && context.sudo_user matches Some(s) && s@ == a.name;
            &&& id.sudo <==> counts
            &&& id.effective == effective && id.history_owner == effective
            &&& counts ==> id.invoker == claimed && (claimed matches Some(a) && id.actor == a.name)
            &&& !counts ==> id.invoker is None && id.actor == effective.name
        }),
{
}

/// What stands behind a number sign in a line of a policy counts for nothing, and neither do the
/// spaces around what stands before it.
pub proof fn law_notes_in_a_policy_count_for_nothing(line: Seq<char>, note: Seq<char>)
    requires
        forall|i: int| 0 <= i < line.len() ==> #[trigger] line[i] != '#',
    ensures
        line_content(line + seq!['#'] + note) == trimmed(line),
        line_content(line) == trimmed(line),
        policy_line(line + seq!['#'] + note) == policy_line(line),
{
    reveal_strlit("#");
    assert("#"@ =~= seq!['#']);
    lemma_ends_cleanly(line, "#"@);
    lemma_pieces_step(line, "#"@, note);
    assert(!occurs(line, "#"@)) by {
        if occurs(line, "#"@) {
            let i = choose|i: int| occurs_at(line, "#"@, i);
            assert(line.subrange(i, i + 1)[0] == '#');
        }
    }
    lemma_pieces_last(line, "#"@);
}

/// A line of a policy sets it where it has the name, an equals sign and a value, with any spaces
/// between them. A line with the name and without an equals sign is malformed.
pub proof fn law_line_sets_the_policy(
    a: Seq<char>,
    b: Seq<char>,
    c: Seq<char>,
    value: Seq<char>,
    d: Seq<char>,
)
    requires
        forall|i: int| 0 <= i < a.len() ==> is_space(#[trigger] a[i]),
        forall|i: int| 0 <= i < b.len() ==> is_space(#[trigger] b[i]),
        forall|i: int| 0 <= i < c.len() ==> is_space(#[trigger] c[i]),
        forall|i: int| 0 <= i < d.len() ==> is_space(#[trigger] d[i]),
        value.len() > 0,
        !is_space(value[0]),
        !is_space(value.last()),
        !value.contains('#'),
    ensures
        policy_line(a + ("sudo_history"@ + b + seq!['='] + (c + value)) + d)
            == PolicyLine::Setting(value),
        policy_line(a + "sudo_history"@ + d) == PolicyLine::Malformed,
{
    reveal_strlit("sudo_history");
    reveal_strlit("=");
    assert("="@ =~= seq!['=']);
    let name = "sudo_history"@;
    let key = name + b;
    let middle = key + seq!['='] + (c + value);
    let line = a + middle + d;
    let none = Seq::<char>::empty();
    assert forall|i: int| 0 <= i < line.len() implies #[trigger] line[i] != '#' by {
        if a.len() <= i < a.len() + middle.len() {
            let j = i - a.len();
            assert(line[i] == middle[j]);
            if j >= key.len() + 1 + c.len() {
                assert(middle[j] == value[j - key.len() - 1 - c.len()]);
            } else if j > key.len() {
                assert(middle[j] == c[j - key.len() - 1]);
            } else if j < key.len() && j >= name.len() {
                assert(middle[j] == b[j - name.len()]);
            }
        } else if i < a.len() {
            assert(line[i] == a[i]);
        } else {
            assert(line[i] == d[i - a.len() - middle.len()]);
        }
    }
    law_notes_in_a_policy_count_for_nothing(line, none);
    assert(middle[0] == 's' && middle.last() == value.last());
    law_trimmed_text_is_the_middle(a, middle, d);
    assert forall|i: int| 0 <= i < key.len() implies #[trigger] key[i] != "="@[0] by {
        if i >= name.len() {
            assert(key[i] == b[i - name.len()]);
        }
    }
    lemma_ends_cleanly(key, "="@);
    lemma_pieces_step(key, "="@, c + value);
    assert(name[0] == 's' && name.last() == 'y');
    law_trimmed_text_is_the_middle(none, name, b);
    assert(none + name + b =~= key);
    law_trimmed_text_is_the_middle(c, value, none);
    assert(c + value + none =~= c + value);
    let bare = a + name + d;
    assert forall|i: int| 0 <= i < bare.len() implies #[trigger] bare[i] != '#' by {
        if i < a.len() {
            assert(bare[i] == a[i]);
        } else if i < a.len() + name.len() {
            assert(bare[i] == name[i - a.len()]);
        } else {
            assert(bare[i] == d[i - a.len() - name.len()]);
        }
    }
    law_notes_in_a_policy_count_for_nothing(bare, none);
    law_trimmed_text_is_the_middle(a, name, d);
    assert(!occurs(name, "="@)) by {
        if occurs(name, "="@) {
            let i = choose|i: int| occurs_at(name, "="@, i);
            assert(name.subrange(i, i + 1)[0] == '=');
            assert(name[i] == '=');
        }
    }
    lemma_pieces_last(name, "="@);
    assert(name.subrange(0, name.len() as int) =~= name);
}

/// The values of a policy: both names of each.
pub proof fn law_values_of_a_policy(value: Seq<char>)
    ensures
        policy_value(value) == Some(SudoHistoryPolicy::RootAndUser) <==> value
            == "\"root_and_user\""@ || value == "\"user\""@,
        policy_value(value) == Some(SudoHistoryPolicy::RootOnly) <==> value == "\"root_only\""@
            || value == "\"root\""@,
{
    reveal_strlit("\"root_and_user\"");
    reveal_strlit("\"user\"");
    reveal_strlit("\"root_only\"");
    reveal_strlit("\"root\"");
    assert("\"root_and_user\""@.len() == 15 && "\"user\""@.len() == 6);
    assert("\"root_only\""@.len() == 11 && "\"root\""@.len() == 6);
    assert("\"root\""@[1] == 'r' && "\"user\""@[1] == 'u');
}

/// A policy is read line by line: it is what the one line says that sets it, and history for both
/// where no line does. A malformed line, a value that is none, and a second setting are refused,
/// wherever they stand.
pub proof fn law_policy_is_what_its_one_setting_says(
    lines: Seq<Seq<char>>,
    from: int,
    found: Option<SudoHistoryPolicy>,
)
    requires
        0 <= from <= lines.len(),
    ensures
        policy_from(lines, from, found) matches Ok(p) ==> {
            &&& forall|i: int|
                from <= i < lines.len() ==> !(policy_line(#[trigger] lines[i]) is Malformed)
            &&& forall|i: int|
                from <= i < lines.len() ==> (policy_line(#[trigger] lines[i]) matches PolicyLine::Setting(
                    v,
                ) ==> found is None && policy_value(v) == Some(p))
            &&& forall|i: int, j: int|
                from <= i < j < lines.len() ==> !(policy_line(#[trigger] lines[i]) is Setting
                    && policy_line(#[trigger] lines[j]) is Setting)
            &&& found matches Some(q) ==> p == q
            &&& found is None && (forall|i: int|
                from <= i < lines.len() ==> policy_line(#[trigger] lines[i]) is Other) ==> p
                == SudoHistoryPolicy::RootAndUser
        },
        policy_from(lines, from, found) is Err ==> exists|i: int|
            from <= i < lines.len() && match policy_line(#[trigger] lines[i]) {
                PolicyLine::Other => false,
                PolicyLine::Malformed => true,
                PolicyLine::Setting(v) => found is Some || policy_value(v) is None || exists|j: int|
                    from <= j < i && policy_line(#[trigger] lines[j]) is Setting,
            },
    decreases lines.len() - from,
{
    if from < lines.len() {
        match policy_line(lines[from]) {
            PolicyLine::Other => {
                law_policy_is_what_its_one_setting_says(lines, from + 1, found);
            },
            PolicyLine::Malformed => {},
            PolicyLine::Setting(v) => {
                if found is None {
                    match policy_value(v) {
                        Some(p) => {
                            law_policy_is_what_its_one_setting_says(lines, from + 1, Some(p));
                            if policy_from(lines, from + 1, Some(p)) is Err {
                                let i = choose|i: int|
                                    from + 1 <= i < lines.len() && match policy_line(
                                        #[trigger] lines[i],
                                    ) {
                                        PolicyLine::Other => false,
                                        PolicyLine::Malformed => true,
                                        PolicyLine::Setting(v) => true,
                                    };
                                assert(policy_line(lines[from]) is Setting);
                                assert(from <= i < lines.len());
                            }
                        },
                        None => {},
                    }
                }
            },
        }
    }
}

/// An identity that is found is the one that was meant, and an account that cannot be found is none.
pub proof fn law_found_identity_is_the_one_meant(
    id: RuntimeIdentity,
    wanted: IdentityView,
    f: Failure,
    a: Account,
)
    ensures
        resolved_as(Ok(id), wanted) <==> id@ == wanted,
        !resolved_as(Err(f), wanted),
        ok_of(Ok(a)) == Some(a),
        ok_of(Err(f)) is None,
        opt_account(Some(a)) == Some(a@),
        opt_account(None) is None,
{
}

/// The model of an account has all that is known of it.
pub proof fn law_model_of_an_account(x: Account)
    ensures
        x@.name == x.name@,
        x@.uid == x.uid,
        x@.gid == x.gid,
        x@.home == x.home@,
{
}

/// The model of an identity has all that is known of it.
pub proof fn law_model_of_an_identity(x: RuntimeIdentity)
    ensures
        x@.effective == x.effective@,
        x@.history_owner == x.history_owner@,
        x@.invoker == opt_account(x.invoker),
        x@.actor == x.actor@,
        x@.sudo == x.sudo,
{
}

} // verus!
