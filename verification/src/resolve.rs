//! Narrow-phase resolution: positional correction and impulse-based
//! velocity adjustment for a contacting pair, dispatched by the pair's
//! kind combination.

use vstd::prelude::*;
use crate::body::{Config, Mass, RigidBody, Velocity};
use crate::contact::{Contact, ContactNormal};
use crate::fixed::{clamp_to, div_trunc, spec_clamp, tdiv, COORD_LIMIT, MASS_LIMIT, VEL_LIMIT};
use crate::shape::vec3i_in_range;
use crate::vecmath::{Transform, Vec3i};

verus! {

/// Greatest contact distance the resolution functions accept; four
/// times the coordinate limit bounds any distance a contact query on
/// in-range boxes can report.
pub const DIST_LIMIT: i64 = 4_000_000_000_000_000_000;

/// Position of a lone moving body after positional correction: pushed
/// `-dist` along the separation normal, saturating at the coordinate
/// range.
pub open spec fn ob_pos_update(p: Vec3i, n: ContactNormal, dist: int) -> Vec3i {
    p.spec_with_axis(
        n.axis,
        spec_clamp(p.spec_axis(n.axis) + n.spec_sign() * (0 - dist), COORD_LIMIT as int) as i64,
    )
}

/// Velocity of a lone moving body after reflection: if the component
/// along the separation normal is approaching (negative), it is
/// reflected with restitution `rnum / rden`; otherwise unchanged.
pub open spec fn ob_vel_update(v: Vec3i, n: ContactNormal, rnum: int, rden: int) -> Vec3i {
    let vn = n.spec_dot(v);
    if vn < 0 {
        v.spec_with_axis(
            n.axis,
            spec_clamp(
                v.spec_axis(n.axis) - n.spec_sign() * tdiv((rden + rnum) * vn, rden),
                VEL_LIMIT as int,
            ) as i64,
        )
    } else {
        v
    }
}

/// Positions of a dynamic pair after mass-weighted positional
/// correction: the total correction `-dist` is split in proportion to
/// the other body's share of the total mass.
pub open spec fn dd_pos_updates(
    p1: Vec3i,
    p2: Vec3i,
    m1: int,
    m2: int,
    n: ContactNormal,
    dist: int,
) -> (Vec3i, Vec3i) {
    let s = n.spec_sign();
    let c1 = tdiv((0 - dist) * m2, m1 + m2);
    let c2 = tdiv((0 - dist) * m1, m1 + m2);
    (
        p1.spec_with_axis(
            n.axis,
            spec_clamp(p1.spec_axis(n.axis) - s * c1, COORD_LIMIT as int) as i64,
        ),
        p2.spec_with_axis(
            n.axis,
            spec_clamp(p2.spec_axis(n.axis) + s * c2, COORD_LIMIT as int) as i64,
        ),
    )
}

/// The per-body velocity change magnitude of a dynamic pair: the
/// impulse divided by this body's mass, computed with one truncation.
pub open spec fn dd_impulse_q(vrel: int, m_other: int, m_total: int, rnum: int, rden: int) -> int {
    tdiv((rden + rnum) * (0 - vrel) * m_other, m_total * rden)
}

/// Velocities of a dynamic pair after the impulse: if the relative
/// velocity along the normal is separating (at least zero) nothing
/// changes; otherwise each body's normal component changes opposite to
/// the other's, weighted by the masses.
pub open spec fn dd_vel_updates(
    v1: Vec3i,
    v2: Vec3i,
    m1: int,
    m2: int,
    n: ContactNormal,
    rnum: int,
    rden: int,
) -> (Vec3i, Vec3i) {
    let vrel = n.spec_dot(v2) - n.spec_dot(v1);
    if vrel >= 0 {
        (v1, v2)
    } else {
        let s = n.spec_sign();
        let q1 = dd_impulse_q(vrel, m2, m1 + m2, rnum, rden);
        let q2 = dd_impulse_q(vrel, m1, m1 + m2, rnum, rden);
        (
            v1.spec_with_axis(
                n.axis,
                spec_clamp(v1.spec_axis(n.axis) - s * q1, VEL_LIMIT as int) as i64,
            ),
            v2.spec_with_axis(
                n.axis,
                spec_clamp(v2.spec_axis(n.axis) + s * q2, VEL_LIMIT as int) as i64,
            ),
        )
    }
}

/// The state of a contacting pair after resolution: the two positions
/// and the two optional velocities, in order.
pub open spec fn spec_contact_handling(
    contact: Contact,
    k1: RigidBody,
    t1: Vec3i,
    v1: Option<Velocity>,
    m1: Option<Mass>,
    k2: RigidBody,
    t2: Vec3i,
    v2: Option<Velocity>,
    m2: Option<Mass>,
    cfg: Config,
) -> (Vec3i, Option<Velocity>, Vec3i, Option<Velocity>) {
    if contact.dist > cfg.tolerance {
        (t1, v1, t2, v2)
    } else {
        match (k1, k2) {
            (RigidBody::Static, RigidBody::Static) => (t1, v1, t2, v2),
            (RigidBody::Static, RigidBody::Dynamic) => {
                let p = ob_pos_update(t2, contact.normal, contact.dist as int);
                let v = ob_vel_update(
                    v2->Some_0.0,
                    contact.normal,
                    cfg.restitution_num as int,
                    cfg.restitution_den as int,
                );
                (t1, v1, p, Some(Velocity(v)))
            },
            (RigidBody::Dynamic, RigidBody::Static) => {
                let away = contact.normal.spec_flip();
                let p = ob_pos_update(t1, away, contact.dist as int);
                let v = ob_vel_update(
                    v1->Some_0.0,
                    away,
                    cfg.restitution_num as int,
                    cfg.restitution_den as int,
                );
                (p, Some(Velocity(v)), t2, v2)
            },
            (RigidBody::Dynamic, RigidBody::Dynamic) => {
                let ps = dd_pos_updates(
                    t1,
                    t2,
                    m1->Some_0.0 as int,
                    m2->Some_0.0 as int,
                    contact.normal,
                    contact.dist as int,
                );
                let vs = dd_vel_updates(
                    v1->Some_0.0,
                    v2->Some_0.0,
                    m1->Some_0.0 as int,
                    m2->Some_0.0 as int,
                    contact.normal,
                    cfg.restitution_num as int,
                    cfg.restitution_den as int,
                );
                (ps.0, Some(Velocity(vs.0)), ps.1, Some(Velocity(vs.1)))
            },
        }
    }
}

/// Separate a moving body from a static one.  `contact.normal` must
/// already point away from the static body, toward the moving one.
/// Contacts farther apart than the tolerance are ignored.
pub fn separate_objects(
    transform: &mut Transform,
    velocity: &mut Velocity,
    contact: Contact,
    cfg: &Config,
)
    requires
        cfg.wf(),
        vec3i_in_range(old(transform).translation, COORD_LIMIT as int),
        vec3i_in_range(old(velocity).0, VEL_LIMIT as int),
        -DIST_LIMIT <= contact.dist <= DIST_LIMIT,
    ensures
        contact.dist > cfg.tolerance ==> *final(transform) == *old(transform) && *final(velocity)
            == *old(velocity),
        contact.dist <= cfg.tolerance ==> final(transform).translation == ob_pos_update(
            old(transform).translation,
            contact.normal,
            contact.dist as int,
        ),
        contact.dist <= cfg.tolerance ==> final(velocity).0 == ob_vel_update(
            old(velocity).0,
            contact.normal,
            cfg.restitution_num as int,
            cfg.restitution_den as int,
        ),
        vec3i_in_range(final(transform).translation, COORD_LIMIT as int),
        vec3i_in_range(final(velocity).0, VEL_LIMIT as int),
{
    if contact.dist > cfg.tolerance {
        return ;
    }
    let n = contact.normal;
    let s: i128 = if n.positive {
        1
    } else {
        -1
    };
    let p = transform.translation.axis_value(n.axis);
    let corrected = clamp_to((p as i128) + s * (0 - contact.dist as i128), COORD_LIMIT);
    transform.translation = transform.translation.with_axis(n.axis, corrected);
    let vax = velocity.0.axis_value(n.axis);
    let vn: i128 = (vax as i128) * s;
    if vn < 0 {
        proof {
            let vspec = n.spec_dot(old(velocity).0);
            assert(vn == vspec);
            assert(-2_000_000_000_000_000_000int <= (cfg.restitution_den + cfg.restitution_num)
                * vspec <= 2_000_000_000_000_000_000int) by (nonlinear_arith)
                requires
                    0 <= cfg.restitution_num <= 1_000_000,
                    1 <= cfg.restitution_den <= 1_000_000,
                    -1_000_000_000_000int <= vspec <= 1_000_000_000_000int,
            ;
            crate::fixed::lemma_tdiv_bound(
                (cfg.restitution_den + cfg.restitution_num) * vspec,
                cfg.restitution_den as int,
            );
        }
        let q = div_trunc(
            ((cfg.restitution_den as i128) + (cfg.restitution_num as i128)) * vn,
            cfg.restitution_den as i128,
        );
        let newv = clamp_to((vax as i128) - s * q, VEL_LIMIT);
        velocity.0 = velocity.0.with_axis(n.axis, newv);
    }
}

/// Resolve a contact between two dynamic bodies: mass-weighted
/// positional correction, then an impulse that changes both normal
/// velocity components unless the pair is already separating.
/// `contact.normal` points from the first body toward the second.
pub fn separate_dynamic(
    transform_1: &mut Transform,
    velocity_1: &mut Velocity,
    mass_1: Mass,
    transform_2: &mut Transform,
    velocity_2: &mut Velocity,
    mass_2: Mass,
    contact: Contact,
    cfg: &Config,
)
    requires
        cfg.wf(),
        vec3i_in_range(old(transform_1).translation, COORD_LIMIT as int),
        vec3i_in_range(old(transform_2).translation, COORD_LIMIT as int),
        vec3i_in_range(old(velocity_1).0, VEL_LIMIT as int),
        vec3i_in_range(old(velocity_2).0, VEL_LIMIT as int),
        1 <= mass_1.0 <= MASS_LIMIT,
        1 <= mass_2.0 <= MASS_LIMIT,
        -DIST_LIMIT <= contact.dist <= DIST_LIMIT,
    ensures
        contact.dist > cfg.tolerance ==> {
            &&& *final(transform_1) == *old(transform_1)
            &&& *final(transform_2) == *old(transform_2)
            &&& *final(velocity_1) == *old(velocity_1)
            &&& *final(velocity_2) == *old(velocity_2)
        },
        contact.dist <= cfg.tolerance ==> (
        final(transform_1).translation,
        final(transform_2).translation,
        ) == dd_pos_updates(
            old(transform_1).translation,
            old(transform_2).translation,
            mass_1.0 as int,
            mass_2.0 as int,
            contact.normal,
            contact.dist as int,
        ),
        contact.dist <= cfg.tolerance ==> (final(velocity_1).0, final(velocity_2).0)
            == dd_vel_updates(
            old(velocity_1).0,
            old(velocity_2).0,
            mass_1.0 as int,
            mass_2.0 as int,
            contact.normal,
            cfg.restitution_num as int,
            cfg.restitution_den as int,
        ),
        vec3i_in_range(final(transform_1).translation, COORD_LIMIT as int),
        vec3i_in_range(final(transform_2).translation, COORD_LIMIT as int),
        vec3i_in_range(final(velocity_1).0, VEL_LIMIT as int),
        vec3i_in_range(final(velocity_2).0, VEL_LIMIT as int),
{
    if contact.dist > cfg.tolerance {
        return ;
    }
    let n = contact.normal;
    let s: i128 = if n.positive {
        1
    } else {
        -1
    };
    let total: i128 = (mass_1.0 as i128) + (mass_2.0 as i128);
    proof {
        assert(-4_000_000_000_000_000_000_000_000int <= (0 - contact.dist) * mass_2.0
            <= 4_000_000_000_000_000_000_000_000int) by (nonlinear_arith)
            requires
                -4_000_000_000_000_000_000int <= contact.dist <= 4_000_000_000_000_000_000int,
                1 <= mass_2.0 <= 1_000_000,
        ;
        assert(-4_000_000_000_000_000_000_000_000int <= (0 - contact.dist) * mass_1.0
            <= 4_000_000_000_000_000_000_000_000int) by (nonlinear_arith)
            requires
                -4_000_000_000_000_000_000int <= contact.dist <= 4_000_000_000_000_000_000int,
                1 <= mass_1.0 <= 1_000_000,
        ;
        crate::fixed::lemma_tdiv_bound(
            (0 - contact.dist as int) * mass_2.0 as int,
            mass_1.0 as int + mass_2.0 as int,
        );
        crate::fixed::lemma_tdiv_bound(
            (0 - contact.dist as int) * mass_1.0 as int,
            mass_1.0 as int + mass_2.0 as int,
        );
    }
    let c1 = div_trunc((0 - contact.dist as i128) * (mass_2.0 as i128), total);
    let c2 = div_trunc((0 - contact.dist as i128) * (mass_1.0 as i128), total);
    let p1 = transform_1.translation.axis_value(n.axis);
    let p2 = transform_2.translation.axis_value(n.axis);
    transform_1.translation = transform_1.translation.with_axis(
        n.axis,
        clamp_to((p1 as i128) - s * c1, COORD_LIMIT),
    );
    transform_2.translation = transform_2.translation.with_axis(
        n.axis,
        clamp_to((p2 as i128) + s * c2, COORD_LIMIT),
    );
    let v1 = velocity_1.0.axis_value(n.axis);
    let v2 = velocity_2.0.axis_value(n.axis);
    let vrel: i128 = (v2 as i128) * s - (v1 as i128) * s;
    if vrel < 0 {
        proof {
            let vrel_spec = n.spec_dot(old(velocity_2).0) - n.spec_dot(old(velocity_1).0);
            let rsum = cfg.restitution_den as int + cfg.restitution_num as int;
            assert(vrel == vrel_spec);
            assert(-4_000_000_000_000_000_000int <= rsum * (0 - vrel_spec)
                <= 4_000_000_000_000_000_000int) by (nonlinear_arith)
                requires
                    0 <= rsum <= 2_000_000,
                    -2_000_000_000_000int <= vrel_spec <= 2_000_000_000_000int,
            ;
            assert(-4_000_000_000_000_000_000_000_000int <= rsum * (0 - vrel_spec) * mass_2.0
                <= 4_000_000_000_000_000_000_000_000int) by (nonlinear_arith)
                requires
                    0 <= rsum <= 2_000_000,
                    -2_000_000_000_000int <= vrel_spec <= 2_000_000_000_000int,
                    1 <= mass_2.0 <= 1_000_000,
            ;
            assert(-4_000_000_000_000_000_000_000_000int <= rsum * (0 - vrel_spec) * mass_1.0
                <= 4_000_000_000_000_000_000_000_000int) by (nonlinear_arith)
                requires
                    0 <= rsum <= 2_000_000,
                    -2_000_000_000_000int <= vrel_spec <= 2_000_000_000_000int,
                    1 <= mass_1.0 <= 1_000_000,
            ;
            assert(1 <= (mass_1.0 + mass_2.0) * cfg.restitution_den
                <= 2_000_000_000_000int) by (nonlinear_arith)
                requires
                    1 <= mass_1.0 <= 1_000_000,
                    1 <= mass_2.0 <= 1_000_000,
                    1 <= cfg.restitution_den <= 1_000_000,
            ;
            crate::fixed::lemma_tdiv_bound(
                rsum * (0 - vrel_spec) * mass_2.0,
                (mass_1.0 + mass_2.0) * cfg.restitution_den,
            );
            crate::fixed::lemma_tdiv_bound(
                rsum * (0 - vrel_spec) * mass_1.0,
                (mass_1.0 + mass_2.0) * cfg.restitution_den,
            );
        }
        let e_sum: i128 = (cfg.restitution_den as i128) + (cfg.restitution_num as i128);
        let denom: i128 = total * (cfg.restitution_den as i128);
        let q1 = div_trunc(e_sum * (0 - vrel) * (mass_2.0 as i128), denom);
        let q2 = div_trunc(e_sum * (0 - vrel) * (mass_1.0 as i128), denom);
        velocity_1.0 = velocity_1.0.with_axis(n.axis, clamp_to((v1 as i128) - s * q1, VEL_LIMIT));
        velocity_2.0 = velocity_2.0.with_axis(n.axis, clamp_to((v2 as i128) + s * q2, VEL_LIMIT));
    }
}

/// Resolve one contacting pair, dispatched by the pair's kind
/// combination: static pairs are untouched, a mixed pair corrects only
/// the dynamic body, and a dynamic pair is corrected mass-weighted.
/// `contact.normal` points from the first body toward the second.
pub fn contact_handling(
    contact: Contact,
    rigid_body_1: RigidBody,
    transform_1: &mut Transform,
    velocity_1: &mut Option<Velocity>,
    mass_1: Option<Mass>,
    rigid_body_2: RigidBody,
    transform_2: &mut Transform,
    velocity_2: &mut Option<Velocity>,
    mass_2: Option<Mass>,
    cfg: &Config,
)
    requires
        cfg.wf(),
        rigid_body_1 is Dynamic ==> (*old(velocity_1)) is Some && mass_1 is Some,
        rigid_body_2 is Dynamic ==> (*old(velocity_2)) is Some && mass_2 is Some,
        vec3i_in_range(old(transform_1).translation, COORD_LIMIT as int),
        vec3i_in_range(old(transform_2).translation, COORD_LIMIT as int),
        (*old(velocity_1)) matches Some(v) ==> vec3i_in_range(v.0, VEL_LIMIT as int),
        (*old(velocity_2)) matches Some(v) ==> vec3i_in_range(v.0, VEL_LIMIT as int),
        mass_1 matches Some(m) ==> 1 <= m.0 <= MASS_LIMIT,
        mass_2 matches Some(m) ==> 1 <= m.0 <= MASS_LIMIT,
        -DIST_LIMIT <= contact.dist <= DIST_LIMIT,
    ensures
        (
        final(transform_1).translation,
        *final(velocity_1),
        final(transform_2).translation,
        *final(velocity_2),
        ) == spec_contact_handling(
            contact,
            rigid_body_1,
            old(transform_1).translation,
            *old(velocity_1),
            mass_1,
            rigid_body_2,
            old(transform_2).translation,
            *old(velocity_2),
            mass_2,
            *cfg,
        ),
        vec3i_in_range(final(transform_1).translation, COORD_LIMIT as int),
        vec3i_in_range(final(transform_2).translation, COORD_LIMIT as int),
        (*final(velocity_1)) matches Some(v) ==> vec3i_in_range(v.0, VEL_LIMIT as int),
        (*final(velocity_2)) matches Some(v) ==> vec3i_in_range(v.0, VEL_LIMIT as int),
        (*old(velocity_1)) is Some <==> (*final(velocity_1)) is Some,
        (*old(velocity_2)) is Some <==> (*final(velocity_2)) is Some,
{
    match (rigid_body_1, rigid_body_2) {
        (RigidBody::Static, RigidBody::Static) => {},
        (RigidBody::Static, RigidBody::Dynamic) => {
            match velocity_2 {
                Some(v) => {
                    separate_objects(transform_2, v, contact, cfg);
                },
                None => {},
            }
        },
        (RigidBody::Dynamic, RigidBody::Static) => {
            let away = Contact { normal: contact.normal.flip(), dist: contact.dist };
            match velocity_1 {
                Some(v) => {
                    separate_objects(transform_1, v, away, cfg);
                },
                None => {},
            }
        },
        (RigidBody::Dynamic, RigidBody::Dynamic) => {
            match (velocity_1, velocity_2, mass_1, mass_2) {
                (Some(v1), Some(v2), Some(m1), Some(m2)) => {
                    separate_dynamic(transform_1, v1, m1, transform_2, v2, m2, contact, cfg);
                },
                _ => {},
            }
        },
    }
}

/// Dynamic-versus-static resolution with zero restitution is perfectly
/// inelastic: the reflected velocity has no component left along the
/// separation normal.
pub proof fn lemma_inelastic_rest(v: Vec3i, n: ContactNormal, rden: int)
    requires
        1 <= rden,
        vec3i_in_range(v, VEL_LIMIT as int),
        n.spec_dot(v) < 0,
    ensures
        n.spec_dot(ob_vel_update(v, n, 0, rden)) == 0,
{
    let vn = n.spec_dot(v);
    let s = n.spec_sign();
    crate::fixed::lemma_tdiv_cancel(vn, rden);
    assert((rden + 0) * vn == vn * rden) by (nonlinear_arith);
    assert(tdiv((rden + 0) * vn, rden) == vn);
    assert(v.spec_axis(n.axis) - s * (v.spec_axis(n.axis) * s) == 0) by (nonlinear_arith)
        requires
            s == 1 || s == -1,
    ;
    assert(ob_vel_update(v, n, 0, rden).spec_axis(n.axis) == 0);
}

/// Dynamic-versus-dynamic resolution with restitution one is perfectly
/// elastic: the total momentum along the contact normal is conserved,
/// provided both per-body quotients divide exactly and neither new
/// velocity saturates.
pub proof fn lemma_elastic_momentum(
    v1: Vec3i,
    v2: Vec3i,
    m1: int,
    m2: int,
    n: ContactNormal,
    rden: int,
)
    requires
        1 <= m1,
        1 <= m2,
        1 <= rden,
        n.spec_dot(v2) - n.spec_dot(v1) < 0,
        ((rden + rden) * (0 - (n.spec_dot(v2) - n.spec_dot(v1))) * m2) % ((m1 + m2) * rden) == 0,
        ((rden + rden) * (0 - (n.spec_dot(v2) - n.spec_dot(v1))) * m1) % ((m1 + m2) * rden) == 0,
        -VEL_LIMIT <= v1.spec_axis(n.axis) - n.spec_sign() * dd_impulse_q(
            n.spec_dot(v2) - n.spec_dot(v1),
            m2,
            m1 + m2,
            rden,
            rden,
        ) <= VEL_LIMIT,
        -VEL_LIMIT <= v2.spec_axis(n.axis) + n.spec_sign() * dd_impulse_q(
            n.spec_dot(v2) - n.spec_dot(v1),
            m1,
            m1 + m2,
            rden,
            rden,
        ) <= VEL_LIMIT,
    ensures
        m1 * n.spec_dot(dd_vel_updates(v1, v2, m1, m2, n, rden, rden).0) + m2 * n.spec_dot(
            dd_vel_updates(v1, v2, m1, m2, n, rden, rden).1,
        ) == m1 * n.spec_dot(v1) + m2 * n.spec_dot(v2),
{
    let vrel = n.spec_dot(v2) - n.spec_dot(v1);
    let dd = (m1 + m2) * rden;
    let a1 = (rden + rden) * (0 - vrel) * m2;
    let a2 = (rden + rden) * (0 - vrel) * m1;
    assert((m1 + m2) * rden >= 1) by (nonlinear_arith)
        requires
            m1 >= 1 && m2 >= 1 && rden >= 1,
    ;
    assert((rden + rden) * (0 - vrel) * m2 >= 0 && (rden + rden) * (0 - vrel) * m1 >= 0)
        by (nonlinear_arith)
        requires
            vrel < 0 && m1 >= 1 && m2 >= 1 && rden >= 1,
    ;
    let q1 = dd_impulse_q(vrel, m2, m1 + m2, rden, rden);
    let q2 = dd_impulse_q(vrel, m1, m1 + m2, rden, rden);
    assert(q1 == a1 / dd && q2 == a2 / dd);
    vstd::arithmetic::div_mod::lemma_fundamental_div_mod(a1, dd);
    vstd::arithmetic::div_mod::lemma_fundamental_div_mod(a2, dd);
    assert(a1 == dd * q1 && a2 == dd * q2);
    assert(m1 * ((rden + rden) * (0 - vrel) * m2) == m2 * ((rden + rden) * (0 - vrel) * m1))
        by (nonlinear_arith);
    assert(m1 * (dd * q1) == dd * (m1 * q1) && m2 * (dd * q2) == dd * (m2 * q2))
        by (nonlinear_arith);
    assert(dd * (m1 * q1) == dd * (m2 * q2));
    assert(m1 * q1 == m2 * q2) by (nonlinear_arith)
        requires
            dd >= 1 && dd * (m1 * q1) == dd * (m2 * q2),
    ;
    let s = n.spec_sign();
    let w1 = dd_vel_updates(v1, v2, m1, m2, n, rden, rden).0;
    let w2 = dd_vel_updates(v1, v2, m1, m2, n, rden, rden).1;
    assert(w1.spec_axis(n.axis) == v1.spec_axis(n.axis) - s * q1);
    assert(w2.spec_axis(n.axis) == v2.spec_axis(n.axis) + s * q2);
    assert(n.spec_dot(w1) == n.spec_dot(v1) - q1 && n.spec_dot(w2) == n.spec_dot(v2) + q2)
        by (nonlinear_arith)
        requires
            s == n.spec_sign() && (s == 1 || s == -1) && n.spec_dot(w1) == w1.spec_axis(n.axis)
                * s && n.spec_dot(w2) == w2.spec_axis(n.axis) * s && n.spec_dot(v1)
                == v1.spec_axis(n.axis) * s && n.spec_dot(v2) == v2.spec_axis(n.axis) * s && w1.spec_axis(
                n.axis,
            ) == v1.spec_axis(n.axis) - s * q1 && w2.spec_axis(n.axis) == v2.spec_axis(n.axis) + s
                * q2,
    ;
    assert(m1 * (n.spec_dot(v1) - q1) + m2 * (n.spec_dot(v2) + q2) == m1 * n.spec_dot(v1) + m2
        * n.spec_dot(v2) - (m1 * q1 - m2 * q2)) by (nonlinear_arith);
}

} // verus!
