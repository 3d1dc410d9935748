//! What the command layer asks of the engine on each refresh of the window.

use crate::day::Day;
use crate::todo::{
    advance, always_on_top, build_view, is_view_of, ledger, roll_over, spec_always_on_top, well_formed,
    Database, TaskView,
};
use crate::window::glass_opacity_bits;
use vstd::prelude::*;

verus! {

/// The state the window shows.
#[derive(Debug)]
pub struct StateDto {
    pub today: Day,
    pub tasks: Vec<TaskView>,
    pub always_on_top: bool,
    /// The glass opacity by its `f32` bits; `None` means the default, 0.5.
    pub glass_opacity_bits: Option<u32>,
}

/// Bring the database to `today` and describe what the window shows. Also
/// returns whether the database moved (and is to be saved).
pub fn get_state(db: &mut Database, today: Day) -> (r: (StateDto, bool))
    requires
        today.valid(),
        old(db).last_active_date matches Some(last) ==> last.valid(),
    ensures
        r.1 == match old(db).last_active_date {
            None => true,
            Some(last) => last.ce < today.ce,
        },
        (ledger(*final(db)), final(db).last_active_date) == advance(
            ledger(*old(db)),
            old(db).last_active_date,
            today,
        ),
        *final(db) == (Database {
            tasks: final(db).tasks,
            archive: final(db).archive,
            daily_log: final(db).daily_log,
            last_active_date: final(db).last_active_date,
            ..*old(db)
        }),
        well_formed(*old(db)) ==> well_formed(*final(db)),
        r.0.today == today,
        r.0.always_on_top == spec_always_on_top(*final(db)),
        r.0.glass_opacity_bits == match final(db).window {
            Some(w) => w.opacity_bits,
            None => None,
        },
        is_view_of(final(db).tasks@, today, r.0.tasks@),
{
    let changed = roll_over(db, today);
    let dto = StateDto {
        today,
        tasks: build_view(db, today),
        always_on_top: always_on_top(db),
        glass_opacity_bits: glass_opacity_bits(db),
    };
    (dto, changed)
}

} // verus!
