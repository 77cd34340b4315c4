//! The order in which changes of the database schema are applied, each once.

use crate::text::{signed_decimal, signed_decimal_of};
use vstd::prelude::*;

verus! {

/// A change of the schema.
#[derive(Clone, Copy, Debug, PartialEq, Eq)]
pub struct Migration {
    pub version: i64,
    /// What has to be done by hand, if anything.
    pub required_actions: Option<&'static str>,
    pub sql: &'static str,
}

/// What is wrong with a list of migrations.
#[derive(Clone, Copy, Debug, PartialEq, Eq, Structural)]
pub enum MigrationError {
    /// A version is not greater than the one before it.
    NotIncreasing { version: i64, previous: i64 },
    /// A version is not positive.
    NotPositive { version: i64 },
}

impl MigrationError {
    pub open spec fn spec_message(&self) -> Seq<char> {
        match self {
            MigrationError::NotIncreasing { version, previous } =>
            "migration versions must be strictly increasing: "@ + signed_decimal(*version as int)
                + " came after "@ + signed_decimal(*previous as int),
            MigrationError::NotPositive { version } => "migration versions must be positive: "@
                + signed_decimal(*version as int),
        }
    }

    /// What is wrong, in words.
    pub fn message(&self) -> (text: String)
        ensures
            text@ == self.spec_message(),
    {
        match self {
            MigrationError::NotIncreasing { version, previous } => String::from_str(
                "migration versions must be strictly increasing: ",
            ).concat(signed_decimal_of(*version).as_str()).concat(" came after ").concat(
                signed_decimal_of(*previous).as_str(),
            ),
            MigrationError::NotPositive { version } => String::from_str(
                "migration versions must be positive: ",
            ).concat(signed_decimal_of(*version).as_str()),
        }
    }
}

/// What is wrong with the migration at `i`, given that nothing is wrong before it.
pub open spec fn migration_error(migrations: Seq<Migration>, i: int) -> Option<MigrationError> {
    let version = migrations[i].version;
    if i > 0 && version <= migrations[i - 1].version {
        Some(MigrationError::NotIncreasing { version, previous: migrations[i - 1].version })
    } else if version <= 0 {
        Some(MigrationError::NotPositive { version })
    } else {
        None
    }
}

/// Whether versions are positive and grow.
pub open spec fn ordered(migrations: Seq<Migration>) -> bool {
    &&& forall|i: int|
        0 <= i < migrations.len() ==> (#[trigger] migrations[i]).version > 0
    &&& forall|i: int, j: int|
        0 <= i < j < migrations.len() ==> (#[trigger] migrations[i]).version < (
        #[trigger] migrations[j]).version
}

/// Checks that versions are positive and grow.
pub fn validate_migrations(migrations: &[Migration]) -> (result: Result<(), MigrationError>)
    ensures
        match result {
            Ok(()) => ordered(migrations@),
            Err(error) => exists|i: int|
                {
                    &&& 0 <= i < migrations@.len()
                    &&& ordered(migrations@.take(i))
                    &&& #[trigger] migration_error(migrations@, i) == Some(error)
                },
        },
{
    let mut i: usize = 0;
    proof {
        assert(ordered(migrations@.take(0)));
    }
    while i < migrations.len()
        invariant
            i <= migrations.len(),
            ordered(migrations@.take(i as int)),
        decreases migrations.len() - i,
    {
        let version: i64 = migrations[i].version;
        if i > 0 && version <= migrations[i - 1].version {
            let error = MigrationError::NotIncreasing {
                version,
                previous: migrations[i - 1].version,
            };
            proof {
                assert(migration_error(migrations@, i as int) == Some(error));
            }
            return Err(error);
        }
        if version <= 0 {
            let error = MigrationError::NotPositive { version };
            proof {
                assert(migration_error(migrations@, i as int) == Some(error));
            }
            return Err(error);
        }
        proof {
            let next = migrations@.take(i + 1);
            assert forall|a: int, b: int| 0 <= a < b < next.len() implies (
            #[trigger] next[a]).version < (#[trigger] next[b]).version by {
                let head = migrations@.take(i as int);
                if b < i {
                    assert(head[a].version < head[b].version);
                } else if a < i - 1 {
                    assert(head[a].version < head[i - 1].version);
                }
            }
            assert forall|a: int| 0 <= a < next.len() implies (#[trigger] next[a]).version > 0 by {
                if a < i {
                    assert(migrations@.take(i as int)[a].version > 0);
                }
            }
        }
        i = i + 1;
    }
    proof {
        assert(migrations@.take(i as int) =~= migrations@);
    }
    Ok(())
}

/// The property not to have been applied.
pub open spec fn not_applied(applied: Seq<i64>) -> spec_fn(Migration) -> bool {
    |migration: Migration| !applied.contains(migration.version)
}

/// The migrations that have not been applied, in their order.
pub fn pending_migrations(migrations: &[Migration], applied: &[i64]) -> (result: Result<
    Vec<Migration>,
    MigrationError,
>)
    ensures
        match result {
            Ok(pending) => ordered(migrations@) && pending@ == migrations@.filter(
                not_applied(applied@),
            ),
            Err(error) => exists|i: int|
                {
                    &&& 0 <= i < migrations@.len()
                    &&& ordered(migrations@.take(i))
                    &&& #[trigger] migration_error(migrations@, i) == Some(error)
                },
        },
{
    match validate_migrations(migrations) {
        Ok(()) => {},
        Err(error) => {
            return Err(error);
        },
    }
    let ghost p = not_applied(applied@);
    let mut pending: Vec<Migration> = Vec::new();
    let mut i: usize = 0;
    proof {
        reveal(Seq::filter);
        assert(pending@ =~= migrations@.take(0).filter(p));
    }
    while i < migrations.len()
        invariant
            i <= migrations.len(),
            p == not_applied(applied@),
            ordered(migrations@),
            pending@ == migrations@.take(i as int).filter(p),
        decreases migrations.len() - i,
    {
        proof {
            reveal(Seq::filter);
            assert(migrations@.take(i + 1).drop_last() =~= migrations@.take(i as int));
        }
        let mut found = false;
        let mut j: usize = 0;
        while j < applied.len()
            invariant
                j <= applied.len(),
                i < migrations.len(),
                found == exists|k: int|
                    0 <= k < j && #[trigger] applied@[k] == migrations@[i as int].version,
            decreases applied.len() - j,
        {
            if applied[j] == migrations[i].version {
                found = true;
                proof {
                    assert(applied@[j as int] == migrations@[i as int].version);
                }
            }
            j = j + 1;
        }
        if !found {
            pending.push(migrations[i]);
        }
        i = i + 1;
    }
    proof {
        assert(migrations@.take(i as int) =~= migrations@);
    }
    Ok(pending)
}

/// The versions of migrations.
pub open spec fn versions(migrations: Seq<Migration>) -> Seq<i64> {
    migrations.map_values(|migration: Migration| migration.version)
}

/// Once the pending migrations have been applied, none is pending.
pub proof fn lemma_applied_once(migrations: Seq<Migration>, applied: Seq<i64>)
    ensures
        ({
            let pending = migrations.filter(not_applied(applied));
            migrations.filter(not_applied(applied + versions(pending))).len() == 0
        }),
{
    let pending = migrations.filter(not_applied(applied));
    let after = applied + versions(pending);
    let rest = migrations.filter(not_applied(after));
    if rest.len() > 0 {
        let m = rest[0];
        migrations.lemma_filter_pred(not_applied(after), 0);
        assert(not_applied(after)(m));
        assert(rest.contains(m));
        let i = lemma_filter_origin(migrations, not_applied(after), 0);
        if applied.contains(m.version) {
            let k = applied.index_of(m.version);
            assert(after[k] == m.version);
        } else {
            assert(not_applied(applied)(migrations[i]));
            migrations.lemma_filter_contains(not_applied(applied), i);
            let k = pending.index_of(migrations[i]);
            assert(versions(pending)[k] == m.version);
            assert(after[applied.len() + k] == m.version);
        }
    }
}

proof fn lemma_filter_origin(
    migrations: Seq<Migration>,
    p: spec_fn(Migration) -> bool,
    i: int,
) -> (origin: int)
    requires
        0 <= i < migrations.filter(p).len(),
    ensures
        0 <= origin < migrations.len(),
        migrations[origin] == migrations.filter(p)[i],
    decreases migrations.len(),
{
    reveal(Seq::filter);
    let head = migrations.drop_last();
    if i < head.filter(p).len() {
        lemma_filter_origin(head, p, i)
    } else {
        migrations.len() - 1
    }
}

/// Nothing is wrong with a list of migrations if and only if nothing is wrong with any of
/// them: each version is positive and greater than the one before it.
pub proof fn lemma_ordered(migrations: Seq<Migration>)
    ensures
        ordered(migrations) <==> forall|i: int|
            0 <= i < migrations.len() ==> #[trigger] migration_error(migrations, i) is None,
        forall|i: int|
            #![trigger migration_error(migrations, i)]
            0 <= i < migrations.len() ==> (migration_error(migrations, i) is None
                <==> migrations[i].version > 0 && (i == 0 || migrations[i - 1].version
                < migrations[i].version)),
{
    if forall|i: int|
        0 <= i < migrations.len() ==> #[trigger] migration_error(migrations, i) is None {
        assert forall|i: int, j: int| 0 <= i < j < migrations.len() implies (
        #[trigger] migrations[i]).version < (#[trigger] migrations[j]).version by {
            lemma_grows(migrations, i, j);
        }
        assert forall|i: int| 0 <= i < migrations.len() implies (
        #[trigger] migrations[i]).version > 0 by {
            assert(migration_error(migrations, i) is None);
        }
    }
    if ordered(migrations) {
        assert forall|i: int| 0 <= i < migrations.len() implies #[trigger] migration_error(
            migrations,
            i,
        ) is None by {
            if i > 0 {
                assert(migrations[i - 1].version < migrations[i].version);
            }
        }
    }
}

proof fn lemma_grows(migrations: Seq<Migration>, i: int, j: int)
    requires
        0 <= i < j < migrations.len(),
        forall|i: int|
            0 <= i < migrations.len() ==> #[trigger] migration_error(migrations, i) is None,
    ensures
        migrations[i].version < migrations[j].version,
    decreases j,
{
    assert(migration_error(migrations, j) is None);
    if i < j - 1 {
        lemma_grows(migrations, i, j - 1);
    }
}

/// A migration is pending if and only if it is one of the list and its version is none of
/// those that were applied.
pub proof fn lemma_pending(migrations: Seq<Migration>, applied: Seq<i64>, m: Migration)
    ensures
        migrations.filter(not_applied(applied)).contains(m) <==> migrations.contains(m) && forall|
            k: int,
        | 0 <= k < applied.len() ==> #[trigger] applied[k] != m.version,
{
    let p = not_applied(applied);
    let pending = migrations.filter(p);
    if pending.contains(m) {
        let i = choose|i: int| 0 <= i < pending.len() && pending[i] == m;
        migrations.lemma_filter_pred(p, i);
        let o = lemma_filter_origin(migrations, p, i);
        assert(migrations[o] == m);
        assert(p(m));
        assert forall|k: int| 0 <= k < applied.len() implies #[trigger] applied[k]
            != m.version by {
            if applied[k] == m.version {
                assert(applied.contains(m.version));
            }
        }
    }
    if migrations.contains(m) && forall|k: int|
        0 <= k < applied.len() ==> #[trigger] applied[k] != m.version {
        let o = choose|o: int| 0 <= o < migrations.len() && migrations[o] == m;
        assert(!applied.contains(m.version));
        assert(p(migrations[o]));
        migrations.lemma_filter_contains(p, o);
    }
}

} // verus!
