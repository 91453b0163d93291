//! Component types shared by the examples and tests: a named entity, and a
//! player and a monster that each embed one, plus a stand-alone buff.

use crate::metadata::{ExtractionMetadata, Extractable, TypeKey};
use vstd::prelude::*;

verus! {

pub const ENTITY_KEY: TypeKey = 1;

pub const PLAYER_KEY: TypeKey = 2;

pub const MONSTER_KEY: TypeKey = 3;

pub const BUFF_KEY: TypeKey = 4;

/// Position of the embedded entity in a player or a monster, as registered.
pub const EMBEDDED_ENTITY_OFFSET: usize = 0;

pub struct Entity {
    pub name: String,
}

pub struct Player {
    pub entity: Entity,
    pub health: u32,
}

pub struct Monster {
    pub entity: Entity,
    pub damage: u32,
}

pub struct Buff {
    pub power: u32,
}

impl Extractable for Entity {
    fn type_key() -> TypeKey {
        ENTITY_KEY
    }

    fn metadata() -> Vec<ExtractionMetadata> {
        vec![ExtractionMetadata::new(ENTITY_KEY, 0)]
    }
}

impl Extractable for Player {
    fn type_key() -> TypeKey {
        PLAYER_KEY
    }

    fn metadata() -> Vec<ExtractionMetadata> {
        vec![
            ExtractionMetadata::new(PLAYER_KEY, 0),
            ExtractionMetadata::new_nested(ENTITY_KEY, EMBEDDED_ENTITY_OFFSET, Entity::metadata()),
        ]
    }
}

impl Extractable for Monster {
    fn type_key() -> TypeKey {
        MONSTER_KEY
    }

    fn metadata() -> Vec<ExtractionMetadata> {
        vec![
            ExtractionMetadata::new(MONSTER_KEY, 0),
            ExtractionMetadata::new_nested(ENTITY_KEY, EMBEDDED_ENTITY_OFFSET, Entity::metadata()),
        ]
    }
}

impl Extractable for Buff {
    fn type_key() -> TypeKey {
        BUFF_KEY
    }

    fn metadata() -> Vec<ExtractionMetadata> {
        vec![ExtractionMetadata::new(BUFF_KEY, 0)]
    }
}

} // verus!
