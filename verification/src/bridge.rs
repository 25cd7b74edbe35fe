//! Android runtime permissions and the groups the bridge requests them in.
use vstd::prelude::*;
use vstd::string::*;
use vstd::utf8::*;
use crate::text::{
    ascii_lowercase, ascii_uppercase, lemma_lower_no_capitals, lemma_lower_upper, lowered, owned,
    push_str, str_eq, to_lowercase, views,
};
use vstd::utf8::is_ascii_chars;

verus! {

/// A dangerous Android runtime permission that this app may request.
#[derive(Clone, Copy, Debug, PartialEq, Eq, Structural)]
pub enum Permission {
    /// `android.permission.CAMERA`.
    Camera,
    /// `android.permission.RECORD_AUDIO`.
    RecordAudio,
    /// `android.permission.READ_EXTERNAL_STORAGE`.
    ReadExternalStorage,
    /// `android.permission.WRITE_EXTERNAL_STORAGE`.
    WriteExternalStorage,
    /// `android.permission.READ_MEDIA_IMAGES`.
    ReadMediaImages,
    /// `android.permission.READ_MEDIA_VIDEO`.
    ReadMediaVideo,
    /// `android.permission.READ_MEDIA_AUDIO`.
    ReadMediaAudio,
    /// `android.permission.ACCESS_FINE_LOCATION`.
    AccessFineLocation,
    /// `android.permission.ACCESS_COARSE_LOCATION`.
    AccessCoarseLocation,
    /// `android.permission.ACCESS_BACKGROUND_LOCATION`.
    AccessBackgroundLocation,
    /// `android.permission.ACCESS_MEDIA_LOCATION`.
    AccessMediaLocation,
    /// `android.permission.BLUETOOTH_SCAN`.
    BluetoothScan,
    /// `android.permission.BLUETOOTH_CONNECT`.
    BluetoothConnect,
    /// `android.permission.BLUETOOTH_ADVERTISE`.
    BluetoothAdvertise,
    /// `android.permission.READ_CONTACTS`.
    ReadContacts,
    /// `android.permission.WRITE_CONTACTS`.
    WriteContacts,
    /// `android.permission.GET_ACCOUNTS`.
    GetAccounts,
    /// `android.permission.READ_CALENDAR`.
    ReadCalendar,
    /// `android.permission.WRITE_CALENDAR`.
    WriteCalendar,
    /// `android.permission.READ_PHONE_STATE`.
    ReadPhoneState,
    /// `android.permission.CALL_PHONE`.
    CallPhone,
    /// `android.permission.ACCEPT_HANDOVER`.
    AcceptHandover,
    /// `android.permission.READ_CALL_LOG`.
    ReadCallLog,
    /// `android.permission.WRITE_CALL_LOG`.
    WriteCallLog,
    /// `android.permission.READ_PHONE_NUMBERS`.
    ReadPhoneNumbers,
    /// `android.permission.SEND_SMS`.
    SendSms,
    /// `android.permission.RECEIVE_SMS`.
    ReceiveSms,
    /// `android.permission.READ_SMS`.
    ReadSms,
    /// `android.permission.RECEIVE_WAP_PUSH`.
    ReceiveWapPush,
    /// `android.permission.BODY_SENSORS`.
    BodySensors,
    /// `android.permission.BODY_SENSORS_BACKGROUND`.
    BodySensorsBackground,
    /// `android.permission.ACTIVITY_RECOGNITION`.
    ActivityRecognition,
    /// `android.permission.HIGH_SAMPLING_RATE_SENSORS`.
    HighSamplingRateSensors,
    /// `android.permission.POST_NOTIFICATIONS`.
    PostNotifications,
    /// `android.permission.NFC`.
    Nfc,
    /// `android.permission.PROCESS_OUTGOING_CALLS`.
    ProcessOutgoingCalls,
}

impl Permission {
    /// The permission's Android name.
    pub open spec fn name_of(self) -> Seq<char> {
        match self {
            Permission::Camera => "android.permission.CAMERA"@,
            Permission::RecordAudio => "android.permission.RECORD_AUDIO"@,
            Permission::ReadExternalStorage => "android.permission.READ_EXTERNAL_STORAGE"@,
            Permission::WriteExternalStorage => "android.permission.WRITE_EXTERNAL_STORAGE"@,
            Permission::ReadMediaImages => "android.permission.READ_MEDIA_IMAGES"@,
            Permission::ReadMediaVideo => "android.permission.READ_MEDIA_VIDEO"@,
            Permission::ReadMediaAudio => "android.permission.READ_MEDIA_AUDIO"@,
            Permission::AccessFineLocation => "android.permission.ACCESS_FINE_LOCATION"@,
            Permission::AccessCoarseLocation => "android.permission.ACCESS_COARSE_LOCATION"@,
            Permission::AccessBackgroundLocation => "android.permission.ACCESS_BACKGROUND_LOCATION"@,
            Permission::AccessMediaLocation => "android.permission.ACCESS_MEDIA_LOCATION"@,
            Permission::BluetoothScan => "android.permission.BLUETOOTH_SCAN"@,
            Permission::BluetoothConnect => "android.permission.BLUETOOTH_CONNECT"@,
            Permission::BluetoothAdvertise => "android.permission.BLUETOOTH_ADVERTISE"@,
            Permission::ReadContacts => "android.permission.READ_CONTACTS"@,
            Permission::WriteContacts => "android.permission.WRITE_CONTACTS"@,
            Permission::GetAccounts => "android.permission.GET_ACCOUNTS"@,
            Permission::ReadCalendar => "android.permission.READ_CALENDAR"@,
            Permission::WriteCalendar => "android.permission.WRITE_CALENDAR"@,
            Permission::ReadPhoneState => "android.permission.READ_PHONE_STATE"@,
            Permission::CallPhone => "android.permission.CALL_PHONE"@,
            Permission::AcceptHandover => "android.permission.ACCEPT_HANDOVER"@,
            Permission::ReadCallLog => "android.permission.READ_CALL_LOG"@,
            Permission::WriteCallLog => "android.permission.WRITE_CALL_LOG"@,
            Permission::ReadPhoneNumbers => "android.permission.READ_PHONE_NUMBERS"@,
            Permission::SendSms => "android.permission.SEND_SMS"@,
            Permission::ReceiveSms => "android.permission.RECEIVE_SMS"@,
            Permission::ReadSms => "android.permission.READ_SMS"@,
            Permission::ReceiveWapPush => "android.permission.RECEIVE_WAP_PUSH"@,
            Permission::BodySensors => "android.permission.BODY_SENSORS"@,
            Permission::BodySensorsBackground => "android.permission.BODY_SENSORS_BACKGROUND"@,
            Permission::ActivityRecognition => "android.permission.ACTIVITY_RECOGNITION"@,
            Permission::HighSamplingRateSensors => "android.permission.HIGH_SAMPLING_RATE_SENSORS"@,
            Permission::PostNotifications => "android.permission.POST_NOTIFICATIONS"@,
            Permission::Nfc => "android.permission.NFC"@,
            Permission::ProcessOutgoingCalls => "android.permission.PROCESS_OUTGOING_CALLS"@,
        }
    }

    /// The permission's Android name.
    pub fn name(&self) -> (r: &'static str)
        ensures
            r@ == self.name_of(),
    {
        match self {
            Permission::Camera => "android.permission.CAMERA",
            Permission::RecordAudio => "android.permission.RECORD_AUDIO",
            Permission::ReadExternalStorage => "android.permission.READ_EXTERNAL_STORAGE",
            Permission::WriteExternalStorage => "android.permission.WRITE_EXTERNAL_STORAGE",
            Permission::ReadMediaImages => "android.permission.READ_MEDIA_IMAGES",
            Permission::ReadMediaVideo => "android.permission.READ_MEDIA_VIDEO",
            Permission::ReadMediaAudio => "android.permission.READ_MEDIA_AUDIO",
            Permission::AccessFineLocation => "android.permission.ACCESS_FINE_LOCATION",
            Permission::AccessCoarseLocation => "android.permission.ACCESS_COARSE_LOCATION",
            Permission::AccessBackgroundLocation => "android.permission.ACCESS_BACKGROUND_LOCATION",
            Permission::AccessMediaLocation => "android.permission.ACCESS_MEDIA_LOCATION",
            Permission::BluetoothScan => "android.permission.BLUETOOTH_SCAN",
            Permission::BluetoothConnect => "android.permission.BLUETOOTH_CONNECT",
            Permission::BluetoothAdvertise => "android.permission.BLUETOOTH_ADVERTISE",
            Permission::ReadContacts => "android.permission.READ_CONTACTS",
            Permission::WriteContacts => "android.permission.WRITE_CONTACTS",
            Permission::GetAccounts => "android.permission.GET_ACCOUNTS",
            Permission::ReadCalendar => "android.permission.READ_CALENDAR",
            Permission::WriteCalendar => "android.permission.WRITE_CALENDAR",
            Permission::ReadPhoneState => "android.permission.READ_PHONE_STATE",
            Permission::CallPhone => "android.permission.CALL_PHONE",
            Permission::AcceptHandover => "android.permission.ACCEPT_HANDOVER",
            Permission::ReadCallLog => "android.permission.READ_CALL_LOG",
            Permission::WriteCallLog => "android.permission.WRITE_CALL_LOG",
            Permission::ReadPhoneNumbers => "android.permission.READ_PHONE_NUMBERS",
            Permission::SendSms => "android.permission.SEND_SMS",
            Permission::ReceiveSms => "android.permission.RECEIVE_SMS",
            Permission::ReadSms => "android.permission.READ_SMS",
            Permission::ReceiveWapPush => "android.permission.RECEIVE_WAP_PUSH",
            Permission::BodySensors => "android.permission.BODY_SENSORS",
            Permission::BodySensorsBackground => "android.permission.BODY_SENSORS_BACKGROUND",
            Permission::ActivityRecognition => "android.permission.ACTIVITY_RECOGNITION",
            Permission::HighSamplingRateSensors => "android.permission.HIGH_SAMPLING_RATE_SENSORS",
            Permission::PostNotifications => "android.permission.POST_NOTIFICATIONS",
            Permission::Nfc => "android.permission.NFC",
            Permission::ProcessOutgoingCalls => "android.permission.PROCESS_OUTGOING_CALLS",
        }
    }
}

/// Categorizes Android permissions into logical groups for batch operations.
#[derive(Clone, Copy, Debug, PartialEq, Eq, Structural)]
pub enum BridgeGroup {
    /// Camera-related permissions.
    Camera,
    /// Microphone and audio recording permissions.
    Microphone,
    /// Location permissions (fine, coarse, background).
    Location,
    /// Storage and media permissions.
    Storage,
    /// Bluetooth permissions.
    Bluetooth,
    /// Contact-related permissions.
    Contacts,
    /// Calendar permissions.
    Calendar,
    /// Phone and call-related permissions.
    Phone,
    /// SMS permissions.
    Sms,
    /// Sensor permissions.
    Sensors,
    /// NFC permissions.
    Nfc,
    /// Notification permissions.
    Notifications,
    /// All dangerous runtime permissions combined.
    All,
}

impl BridgeGroup {
    /// The permissions of the group, in request order.
    pub open spec fn permission_seq(self) -> Seq<Permission> {
        match self {
            BridgeGroup::Camera => seq![Permission::Camera],
            BridgeGroup::Microphone => seq![Permission::RecordAudio],
            BridgeGroup::Location => seq![Permission::AccessFineLocation, Permission::AccessCoarseLocation, Permission::AccessBackgroundLocation, Permission::AccessMediaLocation],
            BridgeGroup::Storage => seq![Permission::ReadExternalStorage, Permission::WriteExternalStorage, Permission::ReadMediaImages, Permission::ReadMediaVideo, Permission::ReadMediaAudio],
            BridgeGroup::Bluetooth => seq![Permission::BluetoothScan, Permission::BluetoothConnect, Permission::BluetoothAdvertise],
            BridgeGroup::Contacts => seq![Permission::ReadContacts, Permission::WriteContacts, Permission::GetAccounts],
            BridgeGroup::Calendar => seq![Permission::ReadCalendar, Permission::WriteCalendar],
            BridgeGroup::Phone => seq![Permission::ReadPhoneState, Permission::CallPhone, Permission::AcceptHandover, Permission::ReadCallLog, Permission::WriteCallLog, Permission::ReadPhoneNumbers, Permission::ProcessOutgoingCalls],
            BridgeGroup::Sms => seq![Permission::SendSms, Permission::ReceiveSms, Permission::ReadSms, Permission::ReceiveWapPush],
            BridgeGroup::Sensors => seq![Permission::BodySensors, Permission::BodySensorsBackground, Permission::ActivityRecognition, Permission::HighSamplingRateSensors],
            BridgeGroup::Nfc => seq![Permission::Nfc],
            BridgeGroup::Notifications => seq![Permission::PostNotifications],
            BridgeGroup::All => seq![Permission::Camera, Permission::RecordAudio, Permission::ReadExternalStorage, Permission::WriteExternalStorage, Permission::ReadMediaImages, Permission::ReadMediaVideo, Permission::ReadMediaAudio, Permission::AccessFineLocation, Permission::AccessCoarseLocation, Permission::AccessBackgroundLocation, Permission::AccessMediaLocation, Permission::BluetoothScan, Permission::BluetoothConnect, Permission::BluetoothAdvertise, Permission::ReadContacts, Permission::WriteContacts, Permission::GetAccounts, Permission::ReadCalendar, Permission::WriteCalendar, Permission::ReadPhoneState, Permission::CallPhone, Permission::AcceptHandover, Permission::ReadCallLog, Permission::WriteCallLog, Permission::ReadPhoneNumbers, Permission::SendSms, Permission::ReceiveSms, Permission::ReadSms, Permission::ReceiveWapPush, Permission::BodySensors, Permission::BodySensorsBackground, Permission::ActivityRecognition, Permission::HighSamplingRateSensors, Permission::PostNotifications, Permission::Nfc, Permission::ProcessOutgoingCalls],
        }
    }

    /// The group's name.
    pub open spec fn name_of(self) -> Seq<char> {
        match self {
            BridgeGroup::Camera => "camera"@,
            BridgeGroup::Microphone => "microphone"@,
            BridgeGroup::Location => "location"@,
            BridgeGroup::Storage => "storage"@,
            BridgeGroup::Bluetooth => "bluetooth"@,
            BridgeGroup::Contacts => "contacts"@,
            BridgeGroup::Calendar => "calendar"@,
            BridgeGroup::Phone => "phone"@,
            BridgeGroup::Sms => "sms"@,
            BridgeGroup::Sensors => "sensors"@,
            BridgeGroup::Nfc => "nfc"@,
            BridgeGroup::Notifications => "notifications"@,
            BridgeGroup::All => "all"@,
        }
    }

    /// The group a lowercased name selects (`audio` also selects the microphone).
    pub open spec fn from_lowercase_spec(name: Seq<char>) -> Option<BridgeGroup> {
        if name == "camera"@ {
            Some(BridgeGroup::Camera)
        } else if name == "microphone"@ || name == "audio"@ {
            Some(BridgeGroup::Microphone)
        } else if name == "location"@ {
            Some(BridgeGroup::Location)
        } else if name == "storage"@ {
            Some(BridgeGroup::Storage)
        } else if name == "bluetooth"@ {
            Some(BridgeGroup::Bluetooth)
        } else if name == "contacts"@ {
            Some(BridgeGroup::Contacts)
        } else if name == "calendar"@ {
            Some(BridgeGroup::Calendar)
        } else if name == "phone"@ {
            Some(BridgeGroup::Phone)
        } else if name == "sms"@ {
            Some(BridgeGroup::Sms)
        } else if name == "sensors"@ {
            Some(BridgeGroup::Sensors)
        } else if name == "nfc"@ {
            Some(BridgeGroup::Nfc)
        } else if name == "notifications"@ {
            Some(BridgeGroup::Notifications)
        } else if name == "all"@ {
            Some(BridgeGroup::All)
        } else {
            None
        }
    }

    /// The group's permissions.
    pub fn permission_list(&self) -> (r: Vec<Permission>)
        ensures
            r@ == self.permission_seq(),
    {
        match self {
            BridgeGroup::Camera => vec![Permission::Camera],
            BridgeGroup::Microphone => vec![Permission::RecordAudio],
            BridgeGroup::Location => vec![Permission::AccessFineLocation, Permission::AccessCoarseLocation, Permission::AccessBackgroundLocation, Permission::AccessMediaLocation],
            BridgeGroup::Storage => vec![Permission::ReadExternalStorage, Permission::WriteExternalStorage, Permission::ReadMediaImages, Permission::ReadMediaVideo, Permission::ReadMediaAudio],
            BridgeGroup::Bluetooth => vec![Permission::BluetoothScan, Permission::BluetoothConnect, Permission::BluetoothAdvertise],
            BridgeGroup::Contacts => vec![Permission::ReadContacts, Permission::WriteContacts, Permission::GetAccounts],
            BridgeGroup::Calendar => vec![Permission::ReadCalendar, Permission::WriteCalendar],
            BridgeGroup::Phone => vec![Permission::ReadPhoneState, Permission::CallPhone, Permission::AcceptHandover, Permission::ReadCallLog, Permission::WriteCallLog, Permission::ReadPhoneNumbers, Permission::ProcessOutgoingCalls],
            BridgeGroup::Sms => vec![Permission::SendSms, Permission::ReceiveSms, Permission::ReadSms, Permission::ReceiveWapPush],
            BridgeGroup::Sensors => vec![Permission::BodySensors, Permission::BodySensorsBackground, Permission::ActivityRecognition, Permission::HighSamplingRateSensors],
            BridgeGroup::Nfc => vec![Permission::Nfc],
            BridgeGroup::Notifications => vec![Permission::PostNotifications],
            BridgeGroup::All => vec![Permission::Camera, Permission::RecordAudio, Permission::ReadExternalStorage, Permission::WriteExternalStorage, Permission::ReadMediaImages, Permission::ReadMediaVideo, Permission::ReadMediaAudio, Permission::AccessFineLocation, Permission::AccessCoarseLocation, Permission::AccessBackgroundLocation, Permission::AccessMediaLocation, Permission::BluetoothScan, Permission::BluetoothConnect, Permission::BluetoothAdvertise, Permission::ReadContacts, Permission::WriteContacts, Permission::GetAccounts, Permission::ReadCalendar, Permission::WriteCalendar, Permission::ReadPhoneState, Permission::CallPhone, Permission::AcceptHandover, Permission::ReadCallLog, Permission::WriteCallLog, Permission::ReadPhoneNumbers, Permission::SendSms, Permission::ReceiveSms, Permission::ReadSms, Permission::ReceiveWapPush, Permission::BodySensors, Permission::BodySensorsBackground, Permission::ActivityRecognition, Permission::HighSamplingRateSensors, Permission::PostNotifications, Permission::Nfc, Permission::ProcessOutgoingCalls],
        }
    }

    /// The Android names of the group's permissions, in request order.
    pub fn permissions(&self) -> (r: Vec<&'static str>)
        ensures
            r@.map_values(|s: &'static str| s@) == self.permission_seq().map_values(|p: Permission| p.name_of()),
    {
        let list = self.permission_list();
        let mut r: Vec<&'static str> = Vec::new();
        let mut i: usize = 0;
        while i < list.len()
            invariant
                i <= list@.len(),
                list@ == self.permission_seq(),
                r@.len() == i,
                forall|j: int| 0 <= j < i ==> #[trigger] r@[j]@ == list@[j].name_of(),
            decreases list@.len() - i,
        {
            r.push(list[i].name());
            i = i + 1;
        }
        proof {
            assert(r@.map_values(|s: &'static str| s@) =~= self.permission_seq().map_values(|p: Permission| p.name_of()));
        }
        r
    }

    /// The group's name.
    pub fn name(&self) -> (r: &'static str)
        ensures
            r@ == self.name_of(),
    {
        match self {
            BridgeGroup::Camera => "camera",
            BridgeGroup::Microphone => "microphone",
            BridgeGroup::Location => "location",
            BridgeGroup::Storage => "storage",
            BridgeGroup::Bluetooth => "bluetooth",
            BridgeGroup::Contacts => "contacts",
            BridgeGroup::Calendar => "calendar",
            BridgeGroup::Phone => "phone",
            BridgeGroup::Sms => "sms",
            BridgeGroup::Sensors => "sensors",
            BridgeGroup::Nfc => "nfc",
            BridgeGroup::Notifications => "notifications",
            BridgeGroup::All => "all",
        }
    }

    /// The group's name as an owned string.
    pub fn to_string(&self) -> (r: String)
        ensures
            r@ == self.name_of(),
    {
        owned(self.name())
    }
}


/// The group (other than `All`) that a permission belongs to.
pub open spec fn group_of(p: Permission) -> BridgeGroup {
    match p {
        Permission::Camera => BridgeGroup::Camera,
        Permission::RecordAudio => BridgeGroup::Microphone,
        Permission::ReadExternalStorage => BridgeGroup::Storage,
        Permission::WriteExternalStorage => BridgeGroup::Storage,
        Permission::ReadMediaImages => BridgeGroup::Storage,
        Permission::ReadMediaVideo => BridgeGroup::Storage,
        Permission::ReadMediaAudio => BridgeGroup::Storage,
        Permission::AccessFineLocation => BridgeGroup::Location,
        Permission::AccessCoarseLocation => BridgeGroup::Location,
        Permission::AccessBackgroundLocation => BridgeGroup::Location,
        Permission::AccessMediaLocation => BridgeGroup::Location,
        Permission::BluetoothScan => BridgeGroup::Bluetooth,
        Permission::BluetoothConnect => BridgeGroup::Bluetooth,
        Permission::BluetoothAdvertise => BridgeGroup::Bluetooth,
        Permission::ReadContacts => BridgeGroup::Contacts,
        Permission::WriteContacts => BridgeGroup::Contacts,
        Permission::GetAccounts => BridgeGroup::Contacts,
        Permission::ReadCalendar => BridgeGroup::Calendar,
        Permission::WriteCalendar => BridgeGroup::Calendar,
        Permission::ReadPhoneState => BridgeGroup::Phone,
        Permission::CallPhone => BridgeGroup::Phone,
        Permission::AcceptHandover => BridgeGroup::Phone,
        Permission::ReadCallLog => BridgeGroup::Phone,
        Permission::WriteCallLog => BridgeGroup::Phone,
        Permission::ReadPhoneNumbers => BridgeGroup::Phone,
        Permission::SendSms => BridgeGroup::Sms,
        Permission::ReceiveSms => BridgeGroup::Sms,
        Permission::ReadSms => BridgeGroup::Sms,
        Permission::ReceiveWapPush => BridgeGroup::Sms,
        Permission::BodySensors => BridgeGroup::Sensors,
        Permission::BodySensorsBackground => BridgeGroup::Sensors,
        Permission::ActivityRecognition => BridgeGroup::Sensors,
        Permission::HighSamplingRateSensors => BridgeGroup::Sensors,
        Permission::PostNotifications => BridgeGroup::Notifications,
        Permission::Nfc => BridgeGroup::Nfc,
        Permission::ProcessOutgoingCalls => BridgeGroup::Phone,
    }
}

proof fn lemma_membership(g: BridgeGroup, p: Permission)
    ensures
        g.permission_seq().contains(p) == (g == BridgeGroup::All || g == group_of(p)),
{
    let all = BridgeGroup::All.permission_seq();
    let own = group_of(p).permission_seq();
    match p {
        Permission::Camera => {
            assert(all[0] == p);
            assert(own[0] == p);
        },
        Permission::RecordAudio => {
            assert(all[1] == p);
            assert(own[0] == p);
        },
        Permission::ReadExternalStorage => {
            assert(all[2] == p);
            assert(own[0] == p);
        },
        Permission::WriteExternalStorage => {
            assert(all[3] == p);
            assert(own[1] == p);
        },
        Permission::ReadMediaImages => {
            assert(all[4] == p);
            assert(own[2] == p);
        },
        Permission::ReadMediaVideo => {
            assert(all[5] == p);
            assert(own[3] == p);
        },
        Permission::ReadMediaAudio => {
            assert(all[6] == p);
            assert(own[4] == p);
        },
        Permission::AccessFineLocation => {
            assert(all[7] == p);
            assert(own[0] == p);
        },
        Permission::AccessCoarseLocation => {
            assert(all[8] == p);
            assert(own[1] == p);
        },
        Permission::AccessBackgroundLocation => {
            assert(all[9] == p);
            assert(own[2] == p);
        },
        Permission::AccessMediaLocation => {
            assert(all[10] == p);
            assert(own[3] == p);
        },
        Permission::BluetoothScan => {
            assert(all[11] == p);
            assert(own[0] == p);
        },
        Permission::BluetoothConnect => {
            assert(all[12] == p);
            assert(own[1] == p);
        },
        Permission::BluetoothAdvertise => {
            assert(all[13] == p);
            assert(own[2] == p);
        },
        Permission::ReadContacts => {
            assert(all[14] == p);
            assert(own[0] == p);
        },
        Permission::WriteContacts => {
            assert(all[15] == p);
            assert(own[1] == p);
        },
        Permission::GetAccounts => {
            assert(all[16] == p);
            assert(own[2] == p);
        },
        Permission::ReadCalendar => {
            assert(all[17] == p);
            assert(own[0] == p);
        },
        Permission::WriteCalendar => {
            assert(all[18] == p);
            assert(own[1] == p);
        },
        Permission::ReadPhoneState => {
            assert(all[19] == p);
            assert(own[0] == p);
        },
        Permission::CallPhone => {
            assert(all[20] == p);
            assert(own[1] == p);
        },
        Permission::AcceptHandover => {
            assert(all[21] == p);
            assert(own[2] == p);
        },
        Permission::ReadCallLog => {
            assert(all[22] == p);
            assert(own[3] == p);
        },
        Permission::WriteCallLog => {
            assert(all[23] == p);
            assert(own[4] == p);
        },
        Permission::ReadPhoneNumbers => {
            assert(all[24] == p);
            assert(own[5] == p);
        },
        Permission::SendSms => {
            assert(all[25] == p);
            assert(own[0] == p);
        },
        Permission::ReceiveSms => {
            assert(all[26] == p);
            assert(own[1] == p);
        },
        Permission::ReadSms => {
            assert(all[27] == p);
            assert(own[2] == p);
        },
        Permission::ReceiveWapPush => {
            assert(all[28] == p);
            assert(own[3] == p);
        },
        Permission::BodySensors => {
            assert(all[29] == p);
            assert(own[0] == p);
        },
        Permission::BodySensorsBackground => {
            assert(all[30] == p);
            assert(own[1] == p);
        },
        Permission::ActivityRecognition => {
            assert(all[31] == p);
            assert(own[2] == p);
        },
        Permission::HighSamplingRateSensors => {
            assert(all[32] == p);
            assert(own[3] == p);
        },
        Permission::PostNotifications => {
            assert(all[33] == p);
            assert(own[0] == p);
        },
        Permission::Nfc => {
            assert(all[34] == p);
            assert(own[0] == p);
        },
        Permission::ProcessOutgoingCalls => {
            assert(all[35] == p);
            assert(own[6] == p);
        },
    }
}


/// The message for a group name that selects no group.
pub open spec fn unknown_group_message(name: Seq<char>) -> Seq<char> {
    "Unknown bridge group: "@ + name
}

impl BridgeGroup {
    /// Parses an already lowercased group name.
    pub fn from_lowercase_name(name: &str) -> (r: Result<BridgeGroup, String>)
        ensures
            match BridgeGroup::from_lowercase_spec(name@) {
                Some(g) => r == Ok::<BridgeGroup, String>(g),
                None => r matches Err(e) && e@ == unknown_group_message(name@),
            },
    {
        if str_eq(name, "camera") {
            Ok(BridgeGroup::Camera)
        } else if str_eq(name, "microphone") || str_eq(name, "audio") {
            Ok(BridgeGroup::Microphone)
        } else if str_eq(name, "location") {
            Ok(BridgeGroup::Location)
        } else if str_eq(name, "storage") {
            Ok(BridgeGroup::Storage)
        } else if str_eq(name, "bluetooth") {
            Ok(BridgeGroup::Bluetooth)
        } else if str_eq(name, "contacts") {
            Ok(BridgeGroup::Contacts)
        } else if str_eq(name, "calendar") {
            Ok(BridgeGroup::Calendar)
        } else if str_eq(name, "phone") {
            Ok(BridgeGroup::Phone)
        } else if str_eq(name, "sms") {
            Ok(BridgeGroup::Sms)
        } else if str_eq(name, "sensors") {
            Ok(BridgeGroup::Sensors)
        } else if str_eq(name, "nfc") {
            Ok(BridgeGroup::Nfc)
        } else if str_eq(name, "notifications") {
            Ok(BridgeGroup::Notifications)
        } else if str_eq(name, "all") {
            Ok(BridgeGroup::All)
        } else {
            let mut msg = owned("Unknown bridge group: ");
            push_str(&mut msg, name);
            Err(msg)
        }
    }

    /// Parses a group name, ignoring case (`str::to_lowercase` first).
    pub fn from_name(s: &str) -> (r: Result<BridgeGroup, String>)
        ensures
            match BridgeGroup::from_lowercase_spec(lowered(s@)) {
                Some(g) => r == Ok::<BridgeGroup, String>(g),
                None => r matches Err(e) && e@ == unknown_group_message(lowered(s@)),
            },
    {
        let lower = to_lowercase(s);
        BridgeGroup::from_lowercase_name(lower.as_str())
    }
}

impl std::str::FromStr for BridgeGroup {
    type Err = String;

    fn from_str(s: &str) -> (r: Result<BridgeGroup, String>)
        ensures
            match BridgeGroup::from_lowercase_spec(lowered(s@)) {
                Some(g) => r == Ok::<BridgeGroup, String>(g),
                None => r matches Err(e) && e@ == unknown_group_message(lowered(s@)),
            },
    {
        BridgeGroup::from_name(s)
    }
}

/// The permission names a group name resolves to.
pub open spec fn resolved_permissions(g: BridgeGroup) -> Seq<Seq<char>> {
    g.permission_seq().map_values(|p: Permission| p.name_of())
}

/// Resolves a bridge group name (case-insensitive; `audio` names the microphone
/// group) to its list of permission strings, or an error for an unknown name.
pub fn resolve_bridge_group_permissions(group: &str) -> (r: Result<Vec<String>, String>)
    ensures
        match BridgeGroup::from_lowercase_spec(lowered(group@)) {
            Some(g) => r matches Ok(v) && views(v@) == resolved_permissions(g),
            None => r matches Err(e) && e@ == unknown_group_message(lowered(group@)),
        },
{
    let bridge_group = match BridgeGroup::from_name(group) {
        Ok(g) => g,
        Err(e) => {
            return Err(e);
        },
    };
    let names = bridge_group.permissions();
    let mut out: Vec<String> = Vec::new();
    let mut i: usize = 0;
    while i < names.len()
        invariant
            i <= names@.len(),
            names@.map_values(|s: &'static str| s@) == resolved_permissions(bridge_group),
            out@.len() == i,
            forall|j: int| 0 <= j < i ==> #[trigger] out@[j]@ == names@[j]@,
        decreases names@.len() - i,
    {
        out.push(owned(names[i]));
        i = i + 1;
    }
    proof {
        assert(views(out@) =~= names@.map_values(|s: &'static str| s@));
    }
    Ok(out)
}


/// A key that tells the permission names apart: the length, the first
/// character after `android.permission.` and the character at index 30.
spec fn name_key(n: Seq<char>) -> (nat, char, char) {
    (n.len(), n[19], if n.len() > 30 {
        n[30]
    } else {
        ' '
    })
}

/// The permission a name key belongs to.
spec fn permission_of_key(k: (nat, char, char)) -> Option<Permission> {
    if k == (25nat, 'C', ' ') {
        Some(Permission::Camera)
    } else if k == (31nat, 'R', 'O') {
        Some(Permission::RecordAudio)
    } else if k == (40nat, 'R', 'A') {
        Some(Permission::ReadExternalStorage)
    } else if k == (41nat, 'W', 'N') {
        Some(Permission::WriteExternalStorage)
    } else if k == (36nat, 'R', 'I') {
        Some(Permission::ReadMediaImages)
    } else if k == (35nat, 'R', 'V') {
        Some(Permission::ReadMediaVideo)
    } else if k == (35nat, 'R', 'A') {
        Some(Permission::ReadMediaAudio)
    } else if k == (39nat, 'A', '_') {
        Some(Permission::AccessFineLocation)
    } else if k == (41nat, 'A', 'S') {
        Some(Permission::AccessCoarseLocation)
    } else if k == (45nat, 'A', 'G') {
        Some(Permission::AccessBackgroundLocation)
    } else if k == (40nat, 'A', 'A') {
        Some(Permission::AccessMediaLocation)
    } else if k == (33nat, 'B', 'C') {
        Some(Permission::BluetoothScan)
    } else if k == (36nat, 'B', 'O') {
        Some(Permission::BluetoothConnect)
    } else if k == (38nat, 'B', 'D') {
        Some(Permission::BluetoothAdvertise)
    } else if k == (32nat, 'R', 'T') {
        Some(Permission::ReadContacts)
    } else if k == (33nat, 'W', 'C') {
        Some(Permission::WriteContacts)
    } else if k == (31nat, 'G', 'S') {
        Some(Permission::GetAccounts)
    } else if k == (32nat, 'R', 'A') {
        Some(Permission::ReadCalendar)
    } else if k == (33nat, 'W', 'D') {
        Some(Permission::WriteCalendar)
    } else if k == (35nat, 'R', 'S') {
        Some(Permission::ReadPhoneState)
    } else if k == (29nat, 'C', ' ') {
        Some(Permission::CallPhone)
    } else if k == (34nat, 'A', 'O') {
        Some(Permission::AcceptHandover)
    } else if k == (32nat, 'R', 'O') {
        Some(Permission::ReadCallLog)
    } else if k == (33nat, 'W', 'L') {
        Some(Permission::WriteCallLog)
    } else if k == (37nat, 'R', 'N') {
        Some(Permission::ReadPhoneNumbers)
    } else if k == (27nat, 'S', ' ') {
        Some(Permission::SendSms)
    } else if k == (30nat, 'R', ' ') {
        Some(Permission::ReceiveSms)
    } else if k == (27nat, 'R', ' ') {
        Some(Permission::ReadSms)
    } else if k == (35nat, 'R', '_') {
        Some(Permission::ReceiveWapPush)
    } else if k == (31nat, 'B', 'S') {
        Some(Permission::BodySensors)
    } else if k == (42nat, 'B', 'S') {
        Some(Permission::BodySensorsBackground)
    } else if k == (39nat, 'A', 'C') {
        Some(Permission::ActivityRecognition)
    } else if k == (45nat, 'H', 'N') {
        Some(Permission::HighSamplingRateSensors)
    } else if k == (37nat, 'P', 'C') {
        Some(Permission::PostNotifications)
    } else if k == (22nat, 'N', ' ') {
        Some(Permission::Nfc)
    } else if k == (41nat, 'P', 'G') {
        Some(Permission::ProcessOutgoingCalls)
    } else {
        None
    }
}

/// Each permission's name key gives the permission back.
proof fn lemma_name_key(p: Permission)
    ensures
        permission_of_key(name_key(p.name_of())) == Some(p),
{
    match p {
        Permission::Camera => reveal_strlit("android.permission.CAMERA"),
        Permission::RecordAudio => reveal_strlit("android.permission.RECORD_AUDIO"),
        Permission::ReadExternalStorage => reveal_strlit("android.permission.READ_EXTERNAL_STORAGE"),
        Permission::WriteExternalStorage => reveal_strlit("android.permission.WRITE_EXTERNAL_STORAGE"),
        Permission::ReadMediaImages => reveal_strlit("android.permission.READ_MEDIA_IMAGES"),
        Permission::ReadMediaVideo => reveal_strlit("android.permission.READ_MEDIA_VIDEO"),
        Permission::ReadMediaAudio => reveal_strlit("android.permission.READ_MEDIA_AUDIO"),
        Permission::AccessFineLocation => reveal_strlit("android.permission.ACCESS_FINE_LOCATION"),
        Permission::AccessCoarseLocation => reveal_strlit("android.permission.ACCESS_COARSE_LOCATION"),
        Permission::AccessBackgroundLocation => reveal_strlit("android.permission.ACCESS_BACKGROUND_LOCATION"),
        Permission::AccessMediaLocation => reveal_strlit("android.permission.ACCESS_MEDIA_LOCATION"),
        Permission::BluetoothScan => reveal_strlit("android.permission.BLUETOOTH_SCAN"),
        Permission::BluetoothConnect => reveal_strlit("android.permission.BLUETOOTH_CONNECT"),
        Permission::BluetoothAdvertise => reveal_strlit("android.permission.BLUETOOTH_ADVERTISE"),
        Permission::ReadContacts => reveal_strlit("android.permission.READ_CONTACTS"),
        Permission::WriteContacts => reveal_strlit("android.permission.WRITE_CONTACTS"),
        Permission::GetAccounts => reveal_strlit("android.permission.GET_ACCOUNTS"),
        Permission::ReadCalendar => reveal_strlit("android.permission.READ_CALENDAR"),
        Permission::WriteCalendar => reveal_strlit("android.permission.WRITE_CALENDAR"),
        Permission::ReadPhoneState => reveal_strlit("android.permission.READ_PHONE_STATE"),
        Permission::CallPhone => reveal_strlit("android.permission.CALL_PHONE"),
        Permission::AcceptHandover => reveal_strlit("android.permission.ACCEPT_HANDOVER"),
        Permission::ReadCallLog => reveal_strlit("android.permission.READ_CALL_LOG"),
        Permission::WriteCallLog => reveal_strlit("android.permission.WRITE_CALL_LOG"),
        Permission::ReadPhoneNumbers => reveal_strlit("android.permission.READ_PHONE_NUMBERS"),
        Permission::SendSms => reveal_strlit("android.permission.SEND_SMS"),
        Permission::ReceiveSms => reveal_strlit("android.permission.RECEIVE_SMS"),
        Permission::ReadSms => reveal_strlit("android.permission.READ_SMS"),
        Permission::ReceiveWapPush => reveal_strlit("android.permission.RECEIVE_WAP_PUSH"),
        Permission::BodySensors => reveal_strlit("android.permission.BODY_SENSORS"),
        Permission::BodySensorsBackground => reveal_strlit("android.permission.BODY_SENSORS_BACKGROUND"),
        Permission::ActivityRecognition => reveal_strlit("android.permission.ACTIVITY_RECOGNITION"),
        Permission::HighSamplingRateSensors => reveal_strlit("android.permission.HIGH_SAMPLING_RATE_SENSORS"),
        Permission::PostNotifications => reveal_strlit("android.permission.POST_NOTIFICATIONS"),
        Permission::Nfc => reveal_strlit("android.permission.NFC"),
        Permission::ProcessOutgoingCalls => reveal_strlit("android.permission.PROCESS_OUTGOING_CALLS"),
    }
}

/// Distinct permissions have distinct Android names.
pub proof fn lemma_permission_names_distinct(p1: Permission, p2: Permission)
    requires
        p1 != p2,
    ensures
        p1.name_of() != p2.name_of(),
{
    lemma_name_key(p1);
    lemma_name_key(p2);
}

/// The groups other than `All`, in declaration order.
pub open spec fn named_groups() -> Seq<BridgeGroup> {
    seq![
        BridgeGroup::Camera,
        BridgeGroup::Microphone,
        BridgeGroup::Location,
        BridgeGroup::Storage,
        BridgeGroup::Bluetooth,
        BridgeGroup::Contacts,
        BridgeGroup::Calendar,
        BridgeGroup::Phone,
        BridgeGroup::Sms,
        BridgeGroup::Sensors,
        BridgeGroup::Nfc,
        BridgeGroup::Notifications,
    ]
}

/// The permission names the groups `gs` resolve to, one group after another.
pub open spec fn concat_resolved(gs: Seq<BridgeGroup>) -> Seq<Seq<char>>
    decreases gs.len(),
{
    if gs.len() == 0 {
        Seq::empty()
    } else {
        concat_resolved(gs.drop_last()) + resolved_permissions(gs.last())
    }
}

/// The permissions of the groups `gs`, one group after another.
spec fn concat_permissions(gs: Seq<BridgeGroup>) -> Seq<Permission>
    decreases gs.len(),
{
    if gs.len() == 0 {
        Seq::empty()
    } else {
        concat_permissions(gs.drop_last()) + gs.last().permission_seq()
    }
}

proof fn lemma_concat_names(gs: Seq<BridgeGroup>)
    ensures
        concat_resolved(gs) == concat_permissions(gs).map_values(|p: Permission| p.name_of()),
    decreases gs.len(),
{
    if gs.len() > 0 {
        lemma_concat_names(gs.drop_last());
        let a = concat_permissions(gs.drop_last());
        let b = gs.last().permission_seq();
        assert((a + b).map_values(|p: Permission| p.name_of()) =~= a.map_values(|p: Permission| p.name_of())
            + b.map_values(|p: Permission| p.name_of()));
    }
}

proof fn lemma_concat_contains(gs: Seq<BridgeGroup>, k: int, p: Permission)
    requires
        0 <= k < gs.len(),
        gs[k].permission_seq().contains(p),
    ensures
        concat_permissions(gs).contains(p),
    decreases gs.len(),
{
    let a = concat_permissions(gs.drop_last());
    let b = gs.last().permission_seq();
    if k == gs.len() - 1 {
        let j = choose|j: int| 0 <= j < b.len() && b[j] == p;
        assert((a + b)[a.len() + j] == p);
    } else {
        lemma_concat_contains(gs.drop_last(), k, p);
        let j = choose|j: int| 0 <= j < a.len() && a[j] == p;
        assert((a + b)[j] == p);
    }
}

/// The position of a group other than `All` in `named_groups()`.
spec fn group_index(g: BridgeGroup) -> int {
    match g {
        BridgeGroup::Camera => 0,
        BridgeGroup::Microphone => 1,
        BridgeGroup::Location => 2,
        BridgeGroup::Storage => 3,
        BridgeGroup::Bluetooth => 4,
        BridgeGroup::Contacts => 5,
        BridgeGroup::Calendar => 6,
        BridgeGroup::Phone => 7,
        BridgeGroup::Sms => 8,
        BridgeGroup::Sensors => 9,
        BridgeGroup::Nfc => 10,
        BridgeGroup::Notifications => 11,
        BridgeGroup::All => 12,
    }
}

/// A list of names of distinct permissions has no repeats.
proof fn lemma_names_distinct(ps: Seq<Permission>)
    requires
        ps.no_duplicates(),
    ensures
        ps.map_values(|p: Permission| p.name_of()).no_duplicates(),
{
    let ns = ps.map_values(|p: Permission| p.name_of());
    assert forall|i: int, j: int| 0 <= i < ns.len() && 0 <= j < ns.len() && i != j implies ns[i] != ns[j] by {
        lemma_permission_names_distinct(ps[i], ps[j]);
    }
}

/// The groups other than `All` split its permission list: each resolves to a
/// non-empty list of names without repeats, no name is in two of them, and
/// their lists together are a permutation of the names `all` resolves to.
pub proof fn lemma_groups_partition_all()
    ensures
        forall|g: BridgeGroup| named_groups().contains(g) <==> g != BridgeGroup::All,
        forall|g: BridgeGroup| #[trigger] resolved_permissions(g).len() > 0 && resolved_permissions(g).no_duplicates(),
        forall|g1: BridgeGroup, g2: BridgeGroup, x: Seq<char>|
            g1 != BridgeGroup::All && g2 != BridgeGroup::All && g1 != g2 && #[trigger] resolved_permissions(g1).contains(x)
                ==> !#[trigger] resolved_permissions(g2).contains(x),
        concat_resolved(named_groups()).to_multiset() == resolved_permissions(BridgeGroup::All).to_multiset(),
{
    let named = named_groups();
    assert forall|g: BridgeGroup| named.contains(g) <==> g != BridgeGroup::All by {
        if g != BridgeGroup::All {
            assert(named[group_index(g)] == g);
        }
    }
    assert forall|g: BridgeGroup| #[trigger] resolved_permissions(g).len() > 0 && resolved_permissions(g).no_duplicates() by {
        lemma_group_permissions_distinct(g);
        lemma_names_distinct(g.permission_seq());
    }
    assert forall|g1: BridgeGroup, g2: BridgeGroup, x: Seq<char>|
        g1 != BridgeGroup::All && g2 != BridgeGroup::All && g1 != g2 && #[trigger] resolved_permissions(g1).contains(x)
            implies !#[trigger] resolved_permissions(g2).contains(x) by {
        let s1 = g1.permission_seq();
        let i = choose|i: int| 0 <= i < s1.len() && resolved_permissions(g1)[i] == x;
        if resolved_permissions(g2).contains(x) {
            let s2 = g2.permission_seq();
            let j = choose|j: int| 0 <= j < s2.len() && resolved_permissions(g2)[j] == x;
            if s1[i] != s2[j] {
                lemma_permission_names_distinct(s1[i], s2[j]);
            }
            lemma_groups_disjoint(g1, g2, s1[i]);
        }
    }
    let perms = concat_permissions(named);
    reveal_with_fuel(concat_permissions, 13);
    assert(perms =~= seq![Permission::Camera, Permission::RecordAudio, Permission::AccessFineLocation, Permission::AccessCoarseLocation, Permission::AccessBackgroundLocation, Permission::AccessMediaLocation, Permission::ReadExternalStorage, Permission::WriteExternalStorage, Permission::ReadMediaImages, Permission::ReadMediaVideo, Permission::ReadMediaAudio, Permission::BluetoothScan, Permission::BluetoothConnect, Permission::BluetoothAdvertise, Permission::ReadContacts, Permission::WriteContacts, Permission::GetAccounts, Permission::ReadCalendar, Permission::WriteCalendar, Permission::ReadPhoneState, Permission::CallPhone, Permission::AcceptHandover, Permission::ReadCallLog, Permission::WriteCallLog, Permission::ReadPhoneNumbers, Permission::ProcessOutgoingCalls, Permission::SendSms, Permission::ReceiveSms, Permission::ReadSms, Permission::ReceiveWapPush, Permission::BodySensors, Permission::BodySensorsBackground, Permission::ActivityRecognition, Permission::HighSamplingRateSensors, Permission::Nfc, Permission::PostNotifications]);
    assert(perms.no_duplicates());
    let all = BridgeGroup::All.permission_seq();
    lemma_group_permissions_distinct(BridgeGroup::All);
    lemma_concat_names(named);
    let n = concat_resolved(named);
    let a = resolved_permissions(BridgeGroup::All);
    lemma_names_distinct(perms);
    lemma_names_distinct(all);
    assert forall|x: Seq<char>| n.contains(x) <==> a.contains(x) by {
        if n.contains(x) {
            let i = choose|i: int| 0 <= i < n.len() && n[i] == x;
            let p = perms[i];
            lemma_membership(group_of(p), p);
            lemma_membership(BridgeGroup::All, p);
            let j = choose|j: int| 0 <= j < all.len() && all[j] == p;
            assert(a[j] == x);
        }
        if a.contains(x) {
            let j = choose|j: int| 0 <= j < a.len() && a[j] == x;
            let p = all[j];
            lemma_membership(group_of(p), p);
            assert(named[group_index(group_of(p))] == group_of(p));
            lemma_concat_contains(named, group_index(group_of(p)), p);
            let i = choose|i: int| 0 <= i < perms.len() && perms[i] == p;
            assert(n[i] == x);
        }
    }
    n.lemma_multiset_has_no_duplicates();
    a.lemma_multiset_has_no_duplicates();
    broadcast use vstd::seq_lib::group_to_multiset_ensures;
    assert forall|x: Seq<char>| n.to_multiset().count(x) == a.to_multiset().count(x) by {
        if n.contains(x) {
            assert(n.to_multiset().contains(x));
            assert(a.to_multiset().contains(x));
        }
    }
    assert(n.to_multiset() =~= a.to_multiset());
}

/// Every permission of a group is one of the `All` group's permissions.
pub proof fn lemma_all_covers_every_group(g: BridgeGroup, p: Permission)
    requires
        g.permission_seq().contains(p),
    ensures
        BridgeGroup::All.permission_seq().contains(p),
{
    lemma_membership(g, p);
    lemma_membership(BridgeGroup::All, p);
}

/// Every permission of the `All` group belongs to one of the other groups.
pub proof fn lemma_all_is_union_of_groups(p: Permission)
    requires
        BridgeGroup::All.permission_seq().contains(p),
    ensures
        exists|g: BridgeGroup| g != BridgeGroup::All && #[trigger] g.permission_seq().contains(p),
{
    lemma_membership(group_of(p), p);
}

/// No permission belongs to two groups other than `All`.
pub proof fn lemma_groups_disjoint(g1: BridgeGroup, g2: BridgeGroup, p: Permission)
    requires
        g1 != BridgeGroup::All,
        g2 != BridgeGroup::All,
        g1.permission_seq().contains(p),
        g2.permission_seq().contains(p),
    ensures
        g1 == g2,
{
    lemma_membership(g1, p);
    lemma_membership(g2, p);
}

/// Every group lists at least one permission, and none twice.
pub proof fn lemma_group_permissions_distinct(g: BridgeGroup)
    ensures
        g.permission_seq().len() > 0,
        g.permission_seq().no_duplicates(),
{
}

/// Parsing a group's own name gives the group back.
pub proof fn lemma_group_name_round_trip(g: BridgeGroup)
    ensures
        BridgeGroup::from_lowercase_spec(g.name_of()) == Some(g),
{
    match g {
        BridgeGroup::Camera => {
            reveal_strlit("camera");
        },
        BridgeGroup::Microphone => {
            reveal_strlit("microphone");
            reveal_strlit("camera");
            assert("microphone"@.len() != "camera"@.len());
        },
        BridgeGroup::Location => {
            reveal_strlit("location");
            reveal_strlit("camera");
            assert("location"@.len() != "camera"@.len());
            reveal_strlit("microphone");
            assert("location"@.len() != "microphone"@.len());
            reveal_strlit("audio");
            assert("location"@.len() != "audio"@.len());
        },
        BridgeGroup::Storage => {
            reveal_strlit("storage");
            reveal_strlit("camera");
            assert("storage"@.len() != "camera"@.len());
            reveal_strlit("microphone");
            assert("storage"@.len() != "microphone"@.len());
            reveal_strlit("audio");
            assert("storage"@.len() != "audio"@.len());
            reveal_strlit("location");
            assert("storage"@.len() != "location"@.len());
        },
        BridgeGroup::Bluetooth => {
            reveal_strlit("bluetooth");
            reveal_strlit("camera");
            assert("bluetooth"@.len() != "camera"@.len());
            reveal_strlit("microphone");
            assert("bluetooth"@.len() != "microphone"@.len());
            reveal_strlit("audio");
            assert("bluetooth"@.len() != "audio"@.len());
            reveal_strlit("location");
            assert("bluetooth"@.len() != "location"@.len());
            reveal_strlit("storage");
            assert("bluetooth"@.len() != "storage"@.len());
        },
        BridgeGroup::Contacts => {
            reveal_strlit("contacts");
            reveal_strlit("camera");
            assert("contacts"@.len() != "camera"@.len());
            reveal_strlit("microphone");
            assert("contacts"@.len() != "microphone"@.len());
            reveal_strlit("audio");
            assert("contacts"@.len() != "audio"@.len());
            reveal_strlit("location");
            assert("contacts"@[0] != "location"@[0]);
            reveal_strlit("storage");
            assert("contacts"@.len() != "storage"@.len());
            reveal_strlit("bluetooth");
            assert("contacts"@.len() != "bluetooth"@.len());
        },
        BridgeGroup::Calendar => {
            reveal_strlit("calendar");
            reveal_strlit("camera");
            assert("calendar"@.len() != "camera"@.len());
            reveal_strlit("microphone");
            assert("calendar"@.len() != "microphone"@.len());
            reveal_strlit("audio");
            assert("calendar"@.len() != "audio"@.len());
            reveal_strlit("location");
            assert("calendar"@[0] != "location"@[0]);
            reveal_strlit("storage");
            assert("calendar"@.len() != "storage"@.len());
            reveal_strlit("bluetooth");
            assert("calendar"@.len() != "bluetooth"@.len());
            reveal_strlit("contacts");
            assert("calendar"@[1] != "contacts"@[1]);
        },
        BridgeGroup::Phone => {
            reveal_strlit("phone");
            reveal_strlit("camera");
            assert("phone"@.len() != "camera"@.len());
            reveal_strlit("microphone");
            assert("phone"@.len() != "microphone"@.len());
            reveal_strlit("audio");
            assert("phone"@[0] != "audio"@[0]);
            reveal_strlit("location");
            assert("phone"@.len() != "location"@.len());
            reveal_strlit("storage");
            assert("phone"@.len() != "storage"@.len());
            reveal_strlit("bluetooth");
            assert("phone"@.len() != "bluetooth"@.len());
            reveal_strlit("contacts");
            assert("phone"@.len() != "contacts"@.len());
            reveal_strlit("calendar");
            assert("phone"@.len() != "calendar"@.len());
        },
        BridgeGroup::Sms => {
            reveal_strlit("sms");
            reveal_strlit("camera");
            assert("sms"@.len() != "camera"@.len());
            reveal_strlit("microphone");
            assert("sms"@.len() != "microphone"@.len());
            reveal_strlit("audio");
            assert("sms"@.len() != "audio"@.len());
            reveal_strlit("location");
            assert("sms"@.len() != "location"@.len());
            reveal_strlit("storage");
            assert("sms"@.len() != "storage"@.len());
            reveal_strlit("bluetooth");
            assert("sms"@.len() != "bluetooth"@.len());
            reveal_strlit("contacts");
            assert("sms"@.len() != "contacts"@.len());
            reveal_strlit("calendar");
            assert("sms"@.len() != "calendar"@.len());
            reveal_strlit("phone");
            assert("sms"@.len() != "phone"@.len());
        },
        BridgeGroup::Sensors => {
            reveal_strlit("sensors");
            reveal_strlit("camera");
            assert("sensors"@.len() != "camera"@.len());
            reveal_strlit("microphone");
            assert("sensors"@.len() != "microphone"@.len());
            reveal_strlit("audio");
            assert("sensors"@.len() != "audio"@.len());
            reveal_strlit("location");
            assert("sensors"@.len() != "location"@.len());
            reveal_strlit("storage");
            assert("sensors"@[1] != "storage"@[1]);
            reveal_strlit("bluetooth");
            assert("sensors"@.len() != "bluetooth"@.len());
            reveal_strlit("contacts");
            assert("sensors"@.len() != "contacts"@.len());
            reveal_strlit("calendar");
            assert("sensors"@.len() != "calendar"@.len());
            reveal_strlit("phone");
            assert("sensors"@.len() != "phone"@.len());
            reveal_strlit("sms");
            assert("sensors"@.len() != "sms"@.len());
        },
        BridgeGroup::Nfc => {
            reveal_strlit("nfc");
            reveal_strlit("camera");
            assert("nfc"@.len() != "camera"@.len());
            reveal_strlit("microphone");
            assert("nfc"@.len() != "microphone"@.len());
            reveal_strlit("audio");
            assert("nfc"@.len() != "audio"@.len());
            reveal_strlit("location");
            assert("nfc"@.len() != "location"@.len());
            reveal_strlit("storage");
            assert("nfc"@.len() != "storage"@.len());
            reveal_strlit("bluetooth");
            assert("nfc"@.len() != "bluetooth"@.len());
            reveal_strlit("contacts");
            assert("nfc"@.len() != "contacts"@.len());
            reveal_strlit("calendar");
            assert("nfc"@.len() != "calendar"@.len());
            reveal_strlit("phone");
            assert("nfc"@.len() != "phone"@.len());
            reveal_strlit("sms");
            assert("nfc"@[0] != "sms"@[0]);
            reveal_strlit("sensors");
            assert("nfc"@.len() != "sensors"@.len());
        },
        BridgeGroup::Notifications => {
            reveal_strlit("notifications");
            reveal_strlit("camera");
            assert("notifications"@.len() != "camera"@.len());
            reveal_strlit("microphone");
            assert("notifications"@.len() != "microphone"@.len());
            reveal_strlit("audio");
            assert("notifications"@.len() != "audio"@.len());
            reveal_strlit("location");
            assert("notifications"@.len() != "location"@.len());
            reveal_strlit("storage");
            assert("notifications"@.len() != "storage"@.len());
            reveal_strlit("bluetooth");
            assert("notifications"@.len() != "bluetooth"@.len());
            reveal_strlit("contacts");
            assert("notifications"@.len() != "contacts"@.len());
            reveal_strlit("calendar");
            assert("notifications"@.len() != "calendar"@.len());
            reveal_strlit("phone");
            assert("notifications"@.len() != "phone"@.len());
            reveal_strlit("sms");
            assert("notifications"@.len() != "sms"@.len());
            reveal_strlit("sensors");
            assert("notifications"@.len() != "sensors"@.len());
            reveal_strlit("nfc");
            assert("notifications"@.len() != "nfc"@.len());
        },
        BridgeGroup::All => {
            reveal_strlit("all");
            reveal_strlit("camera");
            assert("all"@.len() != "camera"@.len());
            reveal_strlit("microphone");
            assert("all"@.len() != "microphone"@.len());
            reveal_strlit("audio");
            assert("all"@.len() != "audio"@.len());
            reveal_strlit("location");
            assert("all"@.len() != "location"@.len());
            reveal_strlit("storage");
            assert("all"@.len() != "storage"@.len());
            reveal_strlit("bluetooth");
            assert("all"@.len() != "bluetooth"@.len());
            reveal_strlit("contacts");
            assert("all"@.len() != "contacts"@.len());
            reveal_strlit("calendar");
            assert("all"@.len() != "calendar"@.len());
            reveal_strlit("phone");
            assert("all"@.len() != "phone"@.len());
            reveal_strlit("sms");
            assert("all"@[0] != "sms"@[0]);
            reveal_strlit("sensors");
            assert("all"@.len() != "sensors"@.len());
            reveal_strlit("nfc");
            assert("all"@[0] != "nfc"@[0]);
            reveal_strlit("notifications");
            assert("all"@.len() != "notifications"@.len());
        },
    }
}

/// A group's name is ASCII without capitals, so it is its own lowercase form.
proof fn lemma_name_lowercase_ascii(g: BridgeGroup)
    ensures
        is_ascii_chars(g.name_of()),
        forall|i: int| 0 <= i < g.name_of().len() ==> !('A' <= #[trigger] g.name_of()[i] <= 'Z'),
{
    match g {
        BridgeGroup::Camera => reveal_strlit("camera"),
        BridgeGroup::Microphone => reveal_strlit("microphone"),
        BridgeGroup::Location => reveal_strlit("location"),
        BridgeGroup::Storage => reveal_strlit("storage"),
        BridgeGroup::Bluetooth => reveal_strlit("bluetooth"),
        BridgeGroup::Contacts => reveal_strlit("contacts"),
        BridgeGroup::Calendar => reveal_strlit("calendar"),
        BridgeGroup::Phone => reveal_strlit("phone"),
        BridgeGroup::Sms => reveal_strlit("sms"),
        BridgeGroup::Sensors => reveal_strlit("sensors"),
        BridgeGroup::Nfc => reveal_strlit("nfc"),
        BridgeGroup::Notifications => reveal_strlit("notifications"),
        BridgeGroup::All => reveal_strlit("all"),
    }
}

/// A group's name is lowercase, and parsing it, in any ASCII case, gives the
/// group back: `from_name`, `from_str` and `resolve_bridge_group_permissions`
/// select `g` for `g.name()` and for its uppercase form.
pub proof fn lemma_group_name_parses(g: BridgeGroup)
    ensures
        ascii_lowercase(g.name_of()) == g.name_of(),
        BridgeGroup::from_lowercase_spec(lowered(g.name_of())) == Some(g),
        BridgeGroup::from_lowercase_spec(lowered(ascii_uppercase(g.name_of()))) == Some(g),
{
    let n = g.name_of();
    lemma_name_lowercase_ascii(g);
    lemma_lower_no_capitals(n);
    lemma_lower_upper(n);
    lemma_group_name_round_trip(g);
}

/// Distinct groups have distinct names.
pub proof fn lemma_group_names_distinct(g1: BridgeGroup, g2: BridgeGroup)
    requires
        g1 != g2,
    ensures
        g1.name_of() != g2.name_of(),
{
    lemma_group_name_round_trip(g1);
    lemma_group_name_round_trip(g2);
}

} // verus!
