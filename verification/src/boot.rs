//! What the window is started with.

use crate::text::same;
use vstd::prelude::*;
use vstd::string::StringExecFns;

verus! {

/// The arguments of a run.
#[derive(Debug, Default, Clone, Copy, PartialEq, Eq, Structural)]
pub struct Cli {
    /// Whether the run tests itself and ends.
    pub smoke: bool,
    /// Whether the run says what it takes and ends.
    pub help: bool,
}

/// What `args` come to, or what is said about the first of them that no run takes.
pub open spec fn read_args(args: Seq<Seq<char>>) -> Result<Cli, Seq<char>>
    decreases args.len(),
{
    if args.len() == 0 {
        Ok(Cli { smoke: false, help: false })
    } else {
        let arg = args.last();
        match read_args(args.drop_last()) {
            Err(refused) => Err(refused),
            Ok(cli) => if arg == "--smoke"@ {
                Ok(Cli { smoke: true, help: cli.help })
            } else if arg == "--help"@ || arg == "-h"@ {
                Ok(Cli { smoke: cli.smoke, help: true })
            } else {
                Err("unknown argument "@ + arg + " (try --help)"@)
            },
        }
    }
}

proof fn lemma_refused_stays_refused(args: Seq<Seq<char>>, count: int)
    requires
        0 <= count <= args.len(),
        read_args(args.take(count)) is Err,
    ensures
        read_args(args) == read_args(args.take(count)),
    decreases args.len(),
{
    if count == args.len() {
        assert(args.take(count) =~= args);
    } else {
        assert(args.drop_last().take(count) =~= args.take(count));
        lemma_refused_stays_refused(args.drop_last(), count);
    }
}

impl Cli {
    /// Reads the arguments a run was started with.
    pub fn parse(args: &Vec<String>) -> (result: Result<Self, String>)
        ensures
            match result {
                Ok(cli) => read_args(crate::job::texts(args@)) == Ok::<Cli, Seq<char>>(cli),
                Err(text) => read_args(crate::job::texts(args@)) == Err::<Cli, Seq<char>>(text@),
            },
    {
        let ghost all = crate::job::texts(args@);
        let mut parsed = Cli { smoke: false, help: false };
        let mut at: usize = 0;
        assert(read_args(all.take(0)) == Ok::<Cli, Seq<char>>(parsed));
        while at < args.len()
            invariant
                at <= args@.len(),
                all == crate::job::texts(args@),
                read_args(all.take(at as int)) == Ok::<Cli, Seq<char>>(parsed),
            decreases args@.len() - at,
        {
            let arg: &str = args[at].as_str();
            assert(all.take(at + 1).drop_last() =~= all.take(at as int));
            assert(all.take(at + 1).last() == arg@);
            if same(arg, "--smoke") {
                parsed.smoke = true;
            } else if same(arg, "--help") || same(arg, "-h") {
                parsed.help = true;
            } else {
                let mut text: String = String::from_str("unknown argument ");
                text.append(arg);
                text.append(" (try --help)");
                proof {
                    lemma_refused_stays_refused(all, at + 1);
                }
                return Err(text);
            }
            at += 1;
        }
        assert(all.take(at as int) =~= all);
        Ok(parsed)
    }
}

/// Whether `arg` is one a run takes.
pub open spec fn is_taken(arg: Seq<char>) -> bool {
    arg == "--smoke"@ || arg == "--help"@ || arg == "-h"@
}

/// What a run is started with is what its arguments say, in any order and however often: it tests itself
/// where one of them asks for that, and says what it takes where one asks for that. The first argument no
/// run takes is named, whatever lies behind it.
pub proof fn lemma_every_argument_is_heard(args: Seq<Seq<char>>)
    ensures
        read_args(args) is Ok <==> (forall|i: int| 0 <= i < args.len() ==> #[trigger] is_taken(args[i])),
        read_args(args) matches Ok(cli) ==> {
            &&& cli.smoke <==> args.contains("--smoke"@)
            &&& cli.help <==> args.contains("--help"@) || args.contains("-h"@)
        },
        read_args(args) matches Err(text) ==> exists|i: int|
            0 <= i < args.len() && !(#[trigger] is_taken(args[i])) && text == "unknown argument "@
                + args[i] + " (try --help)"@ && (forall|j: int|
                0 <= j < i ==> #[trigger] is_taken(args[j])),
    decreases args.len(),
{
    reveal_strlit("--smoke");
    reveal_strlit("--help");
    reveal_strlit("-h");
    if args.len() > 0 {
        let less = args.drop_last();
        let last = args.len() - 1;
        lemma_every_argument_is_heard(less);
        assert(args =~= less.push(args[last]));
        assert("--smoke"@.len() == 7 && "--help"@.len() == 6 && "-h"@.len() == 2);
        assert forall|arg: Seq<char>| #[trigger]
            args.contains(arg) <==> less.contains(arg) || args[last] == arg by {
            if args.contains(arg) {
                let i = args.index_of(arg);
                if i < last {
                    assert(less[i] == arg);
                }
            }
            if less.contains(arg) {
                assert(args[less.index_of(arg)] == arg);
            }
        }
        assert(args.contains("--smoke"@) <==> less.contains("--smoke"@) || args[last] == "--smoke"@);
        assert(args.contains("--help"@) <==> less.contains("--help"@) || args[last] == "--help"@);
        assert(args.contains("-h"@) <==> less.contains("-h"@) || args[last] == "-h"@);
        if read_args(less) is Err {
            let i = choose|i: int|
                0 <= i < less.len() && !(#[trigger] is_taken(less[i])) && read_args(less)->Err_0
                    == "unknown argument "@ + less[i] + " (try --help)"@ && (forall|j: int|
                    0 <= j < i ==> #[trigger] is_taken(less[j]));
            assert(!is_taken(args[i]));
            assert forall|j: int| 0 <= j < i implies #[trigger] is_taken(args[j]) by {
                assert(is_taken(less[j]));
            }
        } else {
            assert forall|j: int| 0 <= j < last implies #[trigger] is_taken(args[j]) by {
                assert(is_taken(less[j]));
            }
            if !is_taken(args[last]) {
                assert(read_args(args) is Err);
            } else {
                assert forall|j: int| 0 <= j < args.len() implies #[trigger] is_taken(args[j]) by {
                    if j < last {
                        assert(is_taken(less[j]));
                    }
                }
            }
        }
    } else {
        assert(!args.contains("--smoke"@));
        assert(!args.contains("--help"@));
        assert(!args.contains("-h"@));
    }
}

} // verus!
