//! Storage engines, and the choice of one for a directory.
use vstd::prelude::*;
use crate::errors::KvsError;

verus! {

/// The storage engines a server can run.
pub enum EngineType {
    KvsStore,
    SledKvsEngine,
}

/// A key-value storage engine.
pub trait KvsEngine {
    fn set(&mut self, key: String, value: String) -> Result<(), KvsError>;

    fn get(&self, key: String) -> Result<(), KvsError>;

    fn remove(&mut self, key: String) -> Result<(), KvsError>;

    fn open(&mut self, dir: &str) -> Result<(), KvsError>;
}

/// The name that selects this crate's engine.
pub open spec fn kvs_engine_name() -> Seq<char> {
    seq!['k', 'v', 's']
}

/// The engine that the name selects: `kvs` selects `KvsStore`, any other name
/// `SledKvsEngine`. A directory that already holds the other engine's
/// directory (`sled` for `kvs`, `kvs` for the other) refuses the choice.
pub fn select_engine(engine: &String, sled_dir_exists: bool, kvs_dir_exists: bool) -> (r: Result<EngineType, KvsError>)
    ensures
        engine@ == kvs_engine_name() ==> (if sled_dir_exists {
            r matches Err(KvsError::ErrorEngine)
        } else {
            r matches Ok(EngineType::KvsStore)
        }),
        engine@ != kvs_engine_name() ==> (if kvs_dir_exists {
            r matches Err(KvsError::ErrorEngine)
        } else {
            r matches Ok(EngineType::SledKvsEngine)
        }),
{
    let kvs = String::from_str("kvs");
    proof {
        reveal_strlit("kvs");
        assert(kvs@ =~= kvs_engine_name());
    }
    if *engine == kvs {
        if sled_dir_exists {
            return Err(KvsError::ErrorEngine);
        }
        Ok(EngineType::KvsStore)
    } else {
        if kvs_dir_exists {
            return Err(KvsError::ErrorEngine);
        }
        Ok(EngineType::SledKvsEngine)
    }
}

} // verus!
