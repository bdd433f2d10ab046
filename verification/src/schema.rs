//! The message types that are converted, and what each becomes.

use vstd::prelude::*;

verus! {

/// One supported conversion.
#[derive(Clone, Copy, Debug, PartialEq, Eq)]
pub struct Mapping {
    /// The message type, or the topics, that are converted.
    pub source: &'static str,
    /// What they become in the output.
    pub archetype: &'static str,
    /// The version that brought the conversion.
    pub since: &'static str,
}

/// The table of conversions, row `i`, as message type, archetype and version.
pub open spec fn schema_row(i: int) -> (Seq<char>, Seq<char>, Seq<char>) {
    if i == 0 {
        ("sensor_msgs/Image"@, "Image/DepthImage"@, "v0.1.0"@)
    } else if i == 1 {
        ("sensor_msgs/CompressedImage"@, "Image"@, "v0.1.0"@)
    } else if i == 2 {
        ("sensor_msgs/PointCloud2"@, "Points3D"@, "v0.2.0"@)
    } else if i == 3 {
        ("sensor_msgs/LaserScan"@, "Points2D/LineStrips2D"@, "v0.2.0"@)
    } else if i == 4 {
        ("sensor_msgs/NavSatFix"@, "Points3D (+path optional)"@, "v0.2.0"@)
    } else if i == 5 {
        ("/tf, /tf_static"@, "Transforms3D"@, "v0.3.0"@)
    } else if i == 6 {
        ("nav_msgs/Odometry"@, "Transforms3D"@, "v0.3.0"@)
    } else if i == 7 {
        ("geometry_msgs/PoseStamped"@, "Transforms3D"@, "v0.3.0"@)
    } else {
        ("nav_msgs/Path"@, "LineStrips3D"@, "v0.3.0"@)
    }
}

/// The supported conversions, in the order in which they are listed.
pub fn supported_mappings() -> (table: Vec<Mapping>)
    ensures
        table@.len() == 9,
        forall|i: int|
            0 <= i < 9 ==> (
                (#[trigger] table@[i]).source@,
                table@[i].archetype@,
                table@[i].since@,
            ) == schema_row(i),
{
    let mut table: Vec<Mapping> = Vec::new();
    table.push(Mapping { source: "sensor_msgs/Image", archetype: "Image/DepthImage", since: "v0.1.0" });
    table.push(Mapping { source: "sensor_msgs/CompressedImage", archetype: "Image", since: "v0.1.0" });
    table.push(Mapping { source: "sensor_msgs/PointCloud2", archetype: "Points3D", since: "v0.2.0" });
    table.push(
        Mapping { source: "sensor_msgs/LaserScan", archetype: "Points2D/LineStrips2D", since: "v0.2.0" },
    );
    table.push(
        Mapping {
            source: "sensor_msgs/NavSatFix",
            archetype: "Points3D (+path optional)",
            since: "v0.2.0",
        },
    );
    table.push(Mapping { source: "/tf, /tf_static", archetype: "Transforms3D", since: "v0.3.0" });
    table.push(Mapping { source: "nav_msgs/Odometry", archetype: "Transforms3D", since: "v0.3.0" });
    table.push(
        Mapping { source: "geometry_msgs/PoseStamped", archetype: "Transforms3D", since: "v0.3.0" },
    );
    table.push(Mapping { source: "nav_msgs/Path", archetype: "LineStrips3D", since: "v0.3.0" });
    table
}

} // verus!
