use vstd::prelude::*;
use vstd::string::StringExecFns;

verus! {

/// The command-line flag that starts a node as the backup of another.
pub open spec fn backup_flag() -> Seq<char> {
    seq!['-', '-', 'b', 'a', 'c', 'k', 'u', 'p']
}

/// The flag as text.
fn backup_flag_text() -> (s: String)
    ensures
        s@ == backup_flag(),
{
    proof {
        reveal_strlit("--backup");
    }
    String::from_str("--backup")
}

/// Whether `args` holds the backup flag.
pub fn is_backup(args: &Vec<String>) -> (b: bool)
    ensures
        b == exists|i: int| 0 <= i < args@.len() && (#[trigger] args@[i])@ == backup_flag(),
{
    let flag = backup_flag_text();
    let mut i: usize = 0;
    while i < args.len()
        invariant
            flag@ == backup_flag(),
            0 <= i <= args@.len(),
            forall|k: int| 0 <= k < i ==> (#[trigger] args@[k])@ != backup_flag(),
        decreases args@.len() - i,
    {
        if args[i] == flag {
            assert(args@[i as int]@ == backup_flag());
            return true;
        }
        i = i + 1;
    }
    false
}

/// The test for an argument other than the backup flag.
pub open spec fn not_flag() -> spec_fn(Seq<char>) -> bool {
    |a: Seq<char>| a != backup_flag()
}

/// The arguments other than the backup flag, in order: those a backup
/// hands to the node it starts.
pub fn args_without_flag(args: &Vec<String>) -> (r: Vec<String>)
    ensures
        r@.map_values(|s: String| s@) == args@.map_values(|s: String| s@).filter(not_flag()),
{
    let flag = backup_flag_text();
    let ghost views = args@.map_values(|s: String| s@);
    let ghost pred = not_flag();
    let mut out: Vec<String> = Vec::new();
    let mut i: usize = 0;
    proof {
        assert(views.take(0).filter(pred) =~= Seq::<Seq<char>>::empty()) by {
            reveal(Seq::filter);
        }
        assert(out@.map_values(|s: String| s@) =~= views.take(0).filter(pred));
    }
    while i < args.len()
        invariant
            flag@ == backup_flag(),
            views == args@.map_values(|s: String| s@),
            pred == not_flag(),
            0 <= i <= args@.len(),
            out@.map_values(|s: String| s@) == views.take(i as int).filter(pred),
        decreases args@.len() - i,
    {
        proof {
            assert(views.take(i + 1) =~= views.take(i as int).push(views[i as int]));
            views.take(i as int).lemma_filter_push(views[i as int], pred);
        }
        if args[i] != flag {
            let ghost before = out@;
            out.push(args[i].clone());
            assert(out@.map_values(|s: String| s@) =~= before.map_values(|s: String| s@).push(args@[i as int]@));
        }
        i = i + 1;
    }
    assert(views.take(args@.len() as int) =~= views);
    out
}

/// How a node that the backup started ended.
pub enum ChildExit {
    /// It exited with success.
    Success,
    /// It exited with a failure.
    Failure,
    /// It could not be started.
    NotStarted,
}

/// What the backup does next.
#[derive(Debug, Clone, Copy, PartialEq, Eq, Structural)]
pub enum BackupStep {
    /// Stop: the node ended normally.
    Stop,
    /// Start the node again after this many milliseconds.
    RestartAfter(u64),
}

/// The backup's decision after the node it started ended: stop after a
/// normal exit, start it again a second after a crash, and try again two
/// seconds after a failed start.
pub fn after_exit(exit: ChildExit) -> (s: BackupStep)
    ensures
        s == match exit {
            ChildExit::Success => BackupStep::Stop,
            ChildExit::Failure => BackupStep::RestartAfter(1000),
            ChildExit::NotStarted => BackupStep::RestartAfter(2000),
        },
{
    match exit {
        ChildExit::Success => BackupStep::Stop,
        ChildExit::Failure => BackupStep::RestartAfter(1000),
        ChildExit::NotStarted => BackupStep::RestartAfter(2000),
    }
}

} // verus!
