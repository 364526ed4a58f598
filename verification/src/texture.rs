//! Binding of texture-backed fields: each to its texture resource and, under a companion name,
//! to its sampler resource.

use vstd::prelude::*;
use crate::assignments::RenderResourceAssignments;
use crate::render_resource::{RenderResourceAssignment, ResourceInfo};
use crate::renderer::{RenderResourceContext, RenderResourceTable};
use crate::uniforms::{RenderResourceField, RenderResources};

verus! {

/// The resource slot of a texture asset that holds the texture itself.
pub const TEXTURE_ASSET_INDEX: usize = 0;

/// The resource slot of a texture asset that holds its sampler.
pub const SAMPLER_ASSET_INDEX: usize = 1;

/// The name under which the sampler of the texture field `name` is bound.
pub open spec fn sampler_name(name: Seq<char>) -> Seq<char> {
    name + "_sampler"@
}

/// The field is texture-backed, has a texture, and the backend resolves both the texture and
/// its sampler.
pub open spec fn texture_resolved(table: RenderResourceTable, field: RenderResourceField) -> bool {
    &&& field.is_texture()
    &&& field.texture is Some
    &&& table.asset_resource(field.texture.unwrap(), TEXTURE_ASSET_INDEX) is Some
    &&& table.asset_resource(field.texture.unwrap(), SAMPLER_ASSET_INDEX) is Some
}

/// The table once `field` was looked at: a resolved texture field is bound to its texture
/// under its own name and to its sampler under the companion name; any other field changes
/// nothing.
pub open spec fn texture_bound(
    table: RenderResourceTable,
    field: RenderResourceField,
    assignments: Map<Seq<char>, RenderResourceAssignment>,
) -> Map<Seq<char>, RenderResourceAssignment> {
    if texture_resolved(table, field) {
        assignments.insert(
            field.name,
            RenderResourceAssignment::Texture(
                table.asset_resource(field.texture.unwrap(), TEXTURE_ASSET_INDEX).unwrap(),
            ),
        ).insert(
            sampler_name(field.name),
            RenderResourceAssignment::Sampler(
                table.asset_resource(field.texture.unwrap(), SAMPLER_ASSET_INDEX).unwrap(),
            ),
        )
    } else {
        assignments
    }
}

/// The table once the first `k` of `fields` were looked at, in their order.
pub open spec fn textures_bound(
    table: RenderResourceTable,
    fields: Seq<RenderResourceField>,
    assignments: Map<Seq<char>, RenderResourceAssignment>,
    k: int,
) -> Map<Seq<char>, RenderResourceAssignment>
    decreases k,
{
    if k <= 0 {
        assignments
    } else {
        texture_bound(table, fields[k - 1], textures_bound(table, fields, assignments, k - 1))
    }
}

/// Binds the texture-backed fields of `uniforms` whose texture and sampler the backend can
/// resolve; a field that cannot be resolved yet stays as it was.
pub fn setup_uniform_texture_resources<T: RenderResources, C: RenderResourceContext>(
    uniforms: &T,
    render_resource_context: &C,
    render_resource_assignments: &mut RenderResourceAssignments,
)
    requires
        old(render_resource_assignments).wf(),
    ensures
        final(render_resource_assignments).wf(),
        final(render_resource_assignments).id == old(render_resource_assignments).id,
        final(render_resource_assignments)@ == textures_bound(
            render_resource_context.table(),
            uniforms.fields(),
            old(render_resource_assignments)@,
            uniforms.fields().len() as int,
        ),
{
    let len = uniforms.render_resources_len();
    let mut i: usize = 0;
    while i < len
        invariant
            i <= len,
            len == uniforms.fields().len(),
            render_resource_assignments.wf(),
            render_resource_assignments.id == old(render_resource_assignments).id,
            render_resource_assignments@ == textures_bound(
                render_resource_context.table(),
                uniforms.fields(),
                old(render_resource_assignments)@,
                i as int,
            ),
        decreases len - i,
    {
        let is_texture = match uniforms.resource_info(i) {
            Some(ResourceInfo::Texture) => true,
            _ => false,
        };
        if is_texture {
            let render_resource_name = uniforms.get_render_resource_name(i).unwrap();
            if let Some(texture_handle) = uniforms.texture(i) {
                if let Some(texture_resource) = render_resource_context.get_asset_resource(
                    texture_handle,
                    TEXTURE_ASSET_INDEX,
                ) {
                    if let Some(sampler_resource) = render_resource_context.get_asset_resource(
                        texture_handle,
                        SAMPLER_ASSET_INDEX,
                    ) {
                        let mut sampler_name = String::from_str(render_resource_name);
                        sampler_name.append("_sampler");
                        render_resource_assignments.set(
                            render_resource_name,
                            RenderResourceAssignment::Texture(texture_resource),
                        );
                        render_resource_assignments.set(
                            sampler_name.as_str(),
                            RenderResourceAssignment::Sampler(sampler_resource),
                        );
                    }
                }
            }
        }
        i += 1;
    }
}

} // verus!
