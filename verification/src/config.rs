use vstd::prelude::*;

use crate::zone::{lemma_meets, lemma_view_union, LogZone};

verus! {

/// The settings of both outputs: the console's and the file's, each a
/// maximum level and a set of active zones, independent of each other.
#[derive(Clone, Copy, PartialEq, Eq, Structural)]
pub struct LogState {
    /// The highest level the console shows; 0 shows nothing.
    pub console_level: u8,
    /// The zones the console shows.
    pub console_zones: LogZone,
    /// The highest level written to files; 0 writes nothing.
    pub file_level: u8,
    /// The zones written to files.
    pub file_zones: LogZone,
}

/// A message of `zone` at `level` passes a filter of maximum `max` over the
/// zones `active`: the filter is on, the zones meet, and the level is at
/// most the maximum.
pub open spec fn passes(max: u8, active: LogZone, zone: LogZone, level: u8) -> bool {
    &&& max > 0
    &&& active.0 & zone.0 != 0
    &&& level <= max
}

/// Where a message goes.
#[derive(Clone, Copy, Debug, PartialEq, Eq, Structural)]
pub struct Route {
    /// It is shown on the console.
    pub console: bool,
    /// It is written to the files of its zones.
    pub file: bool,
}

impl LogState {
    /// Both outputs off: every level 0, no zone.
    pub fn new() -> (s: LogState)
        ensures
            s.console_level == 0,
            s.console_zones.0 == 0,
            s.file_level == 0,
            s.file_zones.0 == 0,
    {
        LogState {
            console_level: 0,
            console_zones: LogZone::NONE(),
            file_level: 0,
            file_zones: LogZone::NONE(),
        }
    }
}

/// The state once the console is set to `level` over `zones`.
pub open spec fn set_spec(s: LogState, level: u8, zones: LogZone) -> LogState {
    LogState { console_level: level, console_zones: zones, ..s }
}

/// The state once the file output is turned on at `level` for `zones`, on
/// top of the zones it already had.
pub open spec fn enable_file_spec(s: LogState, level: u8, zones: LogZone) -> LogState {
    LogState { file_level: level, file_zones: LogZone(s.file_zones.0 | zones.0), ..s }
}

/// Whether the console shows a message of `zone` at `level`.
pub open spec fn shows(s: LogState, zone: LogZone, level: u8) -> bool {
    passes(s.console_level, s.console_zones, zone, level)
}

/// Whether the files get a message of `zone` at `level`.
pub open spec fn writes(s: LogState, zone: LogZone, level: u8) -> bool {
    passes(s.file_level, s.file_zones, zone, level)
}

/// Sets the console: messages of `zones` at a level up to `level` are shown,
/// none at all when `level` is 0. The file settings stay as they are.
pub fn set(state: &mut LogState, level: u8, zones: LogZone)
    ensures
        *final(state) == set_spec(*old(state), level, zones),
{
    state.console_level = level;
    state.console_zones = zones;
}

/// Shows everything on the console: the same as `set(100, ALL)`.
pub fn set_all(state: &mut LogState)
    ensures
        *final(state) == set_spec(*old(state), 100, LogZone(u32::MAX)),
{
    set(state, 100, LogZone::ALL());
}

/// Shows nothing on the console: the same as `set(0, ALL)`.
pub fn set_none(state: &mut LogState)
    ensures
        *final(state) == set_spec(*old(state), 0, LogZone(u32::MAX)),
{
    set(state, 0, LogZone::ALL());
}

/// The console's maximum level.
pub fn level(state: &LogState) -> (r: u8)
    ensures
        r == state.console_level,
{
    state.console_level
}

/// The console's active zones.
pub fn zones(state: &LogState) -> (r: LogZone)
    ensures
        r == state.console_zones,
{
    state.console_zones
}

/// Whether a message of `zone` at `level` is shown on the console.
pub fn should_log(state: &LogState, zone: LogZone, level: u8) -> (r: bool)
    ensures
        r == shows(*state, zone, level),
        r == (state.console_level > 0 && level <= state.console_level
            && !state.console_zones@.disjoint(zone@)),
{
    let max = state.console_level;
    let active = state.console_zones;
    max > 0 && active.contains(zone) && level <= max
}

/// Whether a message of `zone` at `level` is written to the files.
pub fn should_log_file(state: &LogState, zone: LogZone, level: u8) -> (r: bool)
    ensures
        r == writes(*state, zone, level),
        r == (state.file_level > 0 && level <= state.file_level && !state.file_zones@.disjoint(
            zone@,
        )),
{
    let max = state.file_level;
    let active = state.file_zones;
    max > 0 && active.contains(zone) && level <= max
}

/// Turns on the file output at `level` for `zones`, keeping the zones that
/// were already written to files. The console settings stay as they are.
pub fn enable_file_output(state: &mut LogState, level: u8, zones: LogZone)
    ensures
        *final(state) == enable_file_spec(*old(state), level, zones),
        final(state).file_level == level,
        final(state).file_zones@ == old(state).file_zones@ + zones@,
        final(state).console_level == old(state).console_level,
        final(state).console_zones == old(state).console_zones,
{
    proof {
        lemma_view_union(state.file_zones, zones);
    }
    state.file_level = level;
    state.file_zones = state.file_zones | zones;
}

/// Where a message of `zone` at `level` goes: to the console when the
/// console settings let it through, to the files when the file settings do.
pub fn route(state: &LogState, zone: LogZone, level: u8) -> (r: Route)
    ensures
        r.console == shows(*state, zone, level),
        r.file == writes(*state, zone, level),
{
    Route { console: should_log(state, zone, level), file: should_log_file(state, zone, level) }
}

/// The console shows a message exactly when the console is on (its level is
/// above 0), the message's level is at most the console's level, and the
/// message's zones meet the console's zones; whatever the console's zones are.
pub proof fn lemma_console_filter(s: LogState, zone: LogZone, level: u8)
    ensures
        shows(s, zone, level) == (s.console_level > 0 && level <= s.console_level
            && !s.console_zones@.disjoint(zone@)),
        shows(s, zone, level) ==> level <= s.console_level,
{
    lemma_meets(s.console_zones, zone);
}

/// The files get a message exactly when the file output is on (its level is
/// above 0), the message's level is at most the file level, and the
/// message's zones meet the file zones.
pub proof fn lemma_file_filter(s: LogState, zone: LogZone, level: u8)
    ensures
        writes(s, zone, level) == (s.file_level > 0 && level <= s.file_level
            && !s.file_zones@.disjoint(zone@)),
        writes(s, zone, level) ==> level <= s.file_level,
{
    lemma_meets(s.file_zones, zone);
}

/// Turning on the file output at `level` sets the file level to `level`,
/// whatever it was (so `level` 0 turns the files off), adds `zones` to the
/// file zones, and leaves the console as it was. A message then goes to the
/// files exactly when `level` is above 0, the message's level is at most
/// `level`, and its zones meet the earlier file zones or `zones`.
pub proof fn lemma_enable_file(s: LogState, level: u8, zones: LogZone, zone: LogZone, msg_level: u8)
    ensures
        enable_file_spec(s, level, zones).file_level == level,
        enable_file_spec(s, level, zones).file_zones@ == s.file_zones@ + zones@,
        enable_file_spec(s, level, zones).console_level == s.console_level,
        enable_file_spec(s, level, zones).console_zones == s.console_zones,
        writes(enable_file_spec(s, level, zones), zone, msg_level) == (level > 0 && msg_level
            <= level && !(s.file_zones@ + zones@).disjoint(zone@)),
        level == 0 ==> !writes(enable_file_spec(s, level, zones), zone, msg_level),
{
    lemma_view_union(s.file_zones, zones);
    lemma_file_filter(enable_file_spec(s, level, zones), zone, msg_level);
}

/// What `set` writes, `level` and `zones` read back.
pub proof fn lemma_set_read_back(s: LogState, level: u8, zones: LogZone)
    ensures
        set_spec(s, level, zones).console_level == level,
        set_spec(s, level, zones).console_zones == zones,
{
}

/// Level 0 turns an output off: nothing is shown, nothing written.
pub proof fn lemma_level_zero_is_off(s: LogState, zone: LogZone, level: u8)
    ensures
        s.console_level == 0 ==> !shows(s, zone, level),
        s.file_level == 0 ==> !writes(s, zone, level),
{
}

/// A message at a lower level passes wherever one at a higher level does.
pub proof fn lemma_lower_level_passes(s: LogState, zone: LogZone, level: u8, lower: u8)
    requires
        lower <= level,
    ensures
        shows(s, zone, level) ==> shows(s, zone, lower),
        writes(s, zone, level) ==> writes(s, zone, lower),
{
}

/// The console and the file output are independent: setting the console
/// leaves what goes to the files unchanged, and turning on the file output
/// leaves what is shown on the console unchanged.
pub proof fn lemma_outputs_independent(
    s: LogState,
    level: u8,
    zones: LogZone,
    zone: LogZone,
    msg_level: u8,
)
    ensures
        writes(set_spec(s, level, zones), zone, msg_level) == writes(s, zone, msg_level),
        shows(enable_file_spec(s, level, zones), zone, msg_level) == shows(s, zone, msg_level),
{
}

/// Turning on the file output for more zones keeps the zones it had: a
/// message that went to the files still does at a level no higher than the
/// new one, and the new zones are written too.
pub proof fn lemma_enable_file_keeps_zones(
    s: LogState,
    level: u8,
    zones: LogZone,
    zone: LogZone,
    msg_level: u8,
)
    requires
        level > 0,
        msg_level <= level,
    ensures
        s.file_zones.0 & zone.0 != 0 ==> writes(enable_file_spec(s, level, zones), zone, msg_level),
        zones.0 & zone.0 != 0 ==> writes(enable_file_spec(s, level, zones), zone, msg_level),
{
    let a = s.file_zones.0;
    let b = zones.0;
    let c = zone.0;
    assert(a & c != 0 ==> (a | b) & c != 0) by (bit_vector);
    assert(b & c != 0 ==> (a | b) & c != 0) by (bit_vector);
}

/// Zones filter: a message passes exactly when its level is let through and
/// its zone shares a bit with the active zones; with all zones active, only
/// the level decides for any non-empty zone.
pub proof fn lemma_all_zones_level_decides(s: LogState, zone: LogZone, level: u8)
    requires
        s.console_zones.0 == u32::MAX,
        zone.0 != 0,
    ensures
        shows(s, zone, level) == (s.console_level > 0 && level <= s.console_level),
{
    let c = zone.0;
    assert(c != 0 ==> 0xFFFF_FFFFu32 & c != 0) by (bit_vector);
}

} // verus!
